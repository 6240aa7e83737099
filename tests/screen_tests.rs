use tetris::screen::Screen;
use tetris::shape::Shape;

fn t_piece(x: i32, y: i32) -> Shape {
    let mut s = Shape::new(10, 0);
    s.x = x;
    s.y = y;
    s
}

fn occupied(sc: &Screen) -> Vec<usize> {
    (0..sc.sc.len()).filter(|k| sc.sc[*k]).collect()
}

fn fill_line(sc: &mut Screen, line: usize) {
    for j in 0..sc.rows {
        sc.sc[j + line * sc.rows] = true;
    }
}

#[test]
fn new_board_is_empty() {
    let s = Screen::new(10, 20);
    assert_eq!((s.rows, s.cols, s.sc.len()), (10, 20, 200));
    assert!(s.sc.iter().all(|b| !*b));
    let e = Screen::new(0, 5);
    assert_eq!(e.sc.len(), 0);
}

#[test]
fn put_marks_piece_cells() {
    let mut s = Screen::new(10, 20);
    s.put(&t_piece(3, 0));
    assert_eq!(occupied(&s), vec![13, 14, 15, 24]);
    s.put(&t_piece(3, 0));
    assert_eq!(occupied(&s), vec![13, 14, 15, 24]);
}

#[test]
fn put_skips_cells_outside_the_grid() {
    let mut s = Screen::new(10, 20);
    s.put(&t_piece(3, 18));
    assert_eq!(occupied(&s), vec![193, 194, 195]);
}

#[test]
fn placement_blocked_by_negative_index() {
    let s = Screen::new(10, 20);
    assert_eq!(s.updatable(&t_piece(3, -2)), Err(()));
    assert_eq!(s.updatable(&t_piece(3, -1)), Ok(()));
}

#[test]
fn placement_blocked_past_the_end() {
    let s = Screen::new(10, 20);
    assert_eq!(s.updatable(&t_piece(3, 17)), Ok(()));
    assert_eq!(s.updatable(&t_piece(3, 18)), Err(()));
}

#[test]
fn placement_blocked_by_occupied_cell() {
    let mut s = Screen::new(10, 20);
    s.sc[24] = true;
    assert_eq!(s.updatable(&t_piece(3, 0)), Err(()));
    assert_eq!(s.updatable(&t_piece(4, 0)), Ok(()));
}

fn naive_can_place(grid: &[bool], rows: usize, s: &Shape) -> bool {
    for c in 0..s.canvas.len() {
        if s.canvas[c] {
            let i = (c % s.dx) as i64;
            let j = (c / s.dx) as i64;
            let k = (s.x as i64 + i) + (s.y as i64 + j) * rows as i64;
            if k < 0 || k >= grid.len() as i64 || grid[k as usize] {
                return false;
            }
        }
    }
    true
}

#[test]
fn placement_matches_definition_on_small_boards() {
    let rows = 4usize;
    let cols = 4usize;
    let mut patterns: Vec<Vec<bool>> = vec![vec![false; 16]];
    for k in 0..16 {
        let mut g = vec![false; 16];
        g[k] = true;
        patterns.push(g);
    }
    patterns.push((0..16).map(|k| k % 3 == 0).collect());
    for g in &patterns {
        let mut board = Screen::new(rows, cols);
        board.sc = g.clone();
        for n in 0..7usize {
            for r in 0..4 {
                let mut p = Shape::new(4, n);
                for _ in 0..r {
                    p.rotate(1);
                }
                for x in -4..6 {
                    for y in -4..6 {
                        p.x = x;
                        p.y = y;
                        let expected = naive_can_place(g, rows, &p);
                        assert_eq!(board.updatable(&p).is_ok(), expected);
                    }
                }
            }
        }
    }
}

#[test]
fn full_lines_in_ascending_order() {
    let mut s = Screen::new(10, 20);
    fill_line(&mut s, 19);
    fill_line(&mut s, 4);
    fill_line(&mut s, 12);
    s.sc[5 + 10 * 10] = true;
    assert_eq!(s.full_lines(), vec![4, 12, 19]);
}

#[test]
fn clearing_two_lines_drops_the_rest() {
    let mut s = Screen::new(10, 20);
    fill_line(&mut s, 19);
    fill_line(&mut s, 18);
    s.sc[170] = true;
    s.sc[175] = true;
    s.sc[102] = true;
    assert_eq!(s.clear_lines(), (40, 2));
    assert_eq!(occupied(&s), vec![122, 190, 195]);
    assert!(s.full_lines().is_empty());
}

#[test]
fn clearing_k_lines_scores_ten_k_squared() {
    for k in 0..5usize {
        let mut s = Screen::new(10, 20);
        for l in 0..k {
            fill_line(&mut s, 19 - l);
        }
        s.sc[(19 - k) * 10] = true;
        s.sc[3 + (19 - k) * 10] = true;
        s.sc[7 + 2 * 10] = true;
        assert_eq!(s.clear_lines(), (10 * k * k, k));
        assert_eq!(occupied(&s), vec![7 + (2 + k) * 10, 190, 193]);
        assert!(s.full_lines().is_empty());
    }
}

#[test]
fn clearing_split_full_lines_keeps_order() {
    let mut s = Screen::new(4, 6);
    fill_line(&mut s, 1);
    fill_line(&mut s, 4);
    s.sc[0] = true;
    s.sc[4 * 2 + 1] = true;
    s.sc[4 * 3 + 2] = true;
    s.sc[4 * 5 + 3] = true;
    assert_eq!(s.clear_lines(), (40, 2));
    assert_eq!(occupied(&s), vec![4 * 2, 4 * 3 + 1, 4 * 4 + 2, 4 * 5 + 3]);
}

#[test]
fn clearing_the_top_line() {
    let mut s = Screen::new(3, 3);
    fill_line(&mut s, 0);
    s.sc[4] = true;
    assert_eq!(s.clear_lines(), (10, 1));
    assert_eq!(occupied(&s), vec![4]);
}

#[test]
fn gravity_falls_then_locks_and_spawns() {
    let mut s = Screen::new(10, 20);
    let mut p = t_piece(3, 16);
    s.put(&p);
    match s.move_down(&mut p, 0) {
        Ok((q, false, 0, 0)) => assert_eq!((q.x, q.y), (3, 17)),
        _ => panic!("piece should fall"),
    }
    assert_eq!(p.y, 17);
    assert_eq!(occupied(&s), vec![183, 184, 185, 194]);
    match s.move_down(&mut p, 1) {
        Ok((q, true, 0, 0)) => {
            assert_eq!(q.shape, tetris::shape::Shapes::Ishape);
            assert_eq!((q.x, q.y, q.rotate), (3, 0, 0));
        }
        _ => panic!("piece should lock"),
    }
    assert_eq!(p.y, 17);
    assert_eq!(occupied(&s), vec![183, 184, 185, 194]);
}

#[test]
fn t_piece_locks_on_eighteenth_step() {
    let mut s = Screen::new(10, 20);
    let mut p = Shape::new(10, 0);
    s.put(&p);
    for step in 1..18 {
        match s.move_down(&mut p, 0) {
            Ok((q, false, 0, 0)) => assert_eq!(q.y, step),
            _ => panic!("piece should still fall"),
        }
    }
    match s.move_down(&mut p, 0) {
        Ok((_, true, 0, 0)) => {}
        _ => panic!("piece should lock"),
    }
    assert_eq!(p.y, 17);
    assert_eq!(occupied(&s), vec![183, 184, 185, 194]);
}

#[test]
fn locking_clears_a_completed_line() {
    let mut s = Screen::new(10, 20);
    for j in 0..10 {
        if !(3..6).contains(&j) {
            s.sc[j + 18 * 10] = true;
        }
    }
    let mut p = t_piece(3, 17);
    s.put(&p);
    match s.move_down(&mut p, 2) {
        Ok((q, true, 10, 1)) => assert_eq!(q.shape, tetris::shape::Shapes::Oshape),
        _ => panic!("line should clear"),
    }
    assert_eq!(occupied(&s), vec![194]);
}

#[test]
fn gravity_reports_game_over_when_spawn_is_blocked() {
    let mut s = Screen::new(10, 20);
    s.sc[14] = true;
    let mut p = t_piece(0, 17);
    s.put(&p);
    assert!(s.move_down(&mut p, 0).is_err());
}

#[test]
fn sideways_move_shifts_piece() {
    let mut s = Screen::new(10, 20);
    let mut p = t_piece(3, 5);
    s.put(&p);
    let q = s.move_side(&mut p, 2);
    assert_eq!((p.x, q.x), (5, 5));
    assert_eq!(occupied(&s), vec![65, 66, 67, 76]);
}

#[test]
fn sideways_move_clamps_at_left_edge() {
    let mut s = Screen::new(10, 20);
    let mut p = t_piece(1, 5);
    s.put(&p);
    let q = s.move_side(&mut p, -5);
    assert_eq!((p.x, q.x), (0, 0));
    assert_eq!(occupied(&s), vec![60, 61, 62, 71]);
}

#[test]
fn sideways_move_clamps_at_right_edge() {
    let mut s = Screen::new(10, 20);
    let mut p = t_piece(6, 5);
    s.put(&p);
    s.move_side(&mut p, 4);
    assert_eq!(p.x, 7);
    assert_eq!(occupied(&s), vec![67, 68, 69, 78]);
    let mut i = Shape::new(10, 1);
    i.rotate(1);
    i.x = 5;
    i.y = 10;
    let mut b = Screen::new(10, 20);
    b.put(&i);
    b.move_side(&mut i, 9);
    assert_eq!(i.x, 7);
    b.move_side(&mut i, -30);
    assert_eq!(i.x, -2);
}

#[test]
fn sideways_move_into_a_block_reverts() {
    let mut s = Screen::new(10, 20);
    s.sc[68] = true;
    let mut p = t_piece(3, 5);
    s.put(&p);
    let q = s.move_side(&mut p, 3);
    assert_eq!((p.x, q.x), (3, 3));
    assert_eq!(occupied(&s), vec![63, 64, 65, 68, 74]);
}

#[test]
fn rotation_turns_piece_on_board() {
    let mut s = Screen::new(10, 20);
    let mut p = t_piece(3, 5);
    s.put(&p);
    let q = s.rotate(&mut p, 1);
    assert_eq!((p.rotate, q.rotate), (1, 1));
    assert_eq!(occupied(&s), vec![54, 63, 64, 74]);
}

#[test]
fn rotation_past_edge_is_rejected() {
    let mut s = Screen::new(10, 20);
    let mut i = Shape::new(10, 1);
    i.rotate(1);
    i.x = -2;
    i.y = 5;
    s.put(&i);
    let before = occupied(&s);
    let q = s.rotate(&mut i, 1);
    assert_eq!((i.rotate, q.rotate), (1, 1));
    assert_eq!(occupied(&s), before);
}

#[test]
fn rotation_into_a_block_is_rejected() {
    let mut s = Screen::new(10, 20);
    s.sc[54] = true;
    let mut p = t_piece(3, 5);
    s.put(&p);
    let q = s.rotate(&mut p, 1);
    assert_eq!((p.rotate, q.rotate), (0, 0));
    assert_eq!(occupied(&s), vec![54, 63, 64, 65, 74]);
}

#[test]
fn counter_clockwise_rotation_on_board() {
    let mut s = Screen::new(10, 20);
    let mut p = t_piece(3, 5);
    s.put(&p);
    s.rotate(&mut p, -1);
    assert_eq!(p.rotate, 3);
    assert_eq!(occupied(&s), vec![54, 64, 65, 74]);
}
