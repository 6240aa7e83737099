use tetris::shape::{Shape, Shapes};

fn bits(s: &str) -> Vec<bool> {
    s.chars().map(|c| c == '#').collect()
}

fn table(kind: Shapes) -> Vec<Vec<bool>> {
    match kind {
        Shapes::Tshape => vec![bits("...###.#."), bits(".#.##..#."), bits(".#.###..."), bits(".#..##.#.")],
        Shapes::Ishape => vec![
            bits("....####........"),
            bits("..#...#...#...#."),
            bits("........####...."),
            bits(".#...#...#...#.."),
        ],
        Shapes::Oshape => vec![bits("####"), bits("####"), bits("####"), bits("####")],
        Shapes::Sshape => vec![bits(".####...."), bits(".#..##..#"), bits("....####."), bits("#..##..#.")],
        Shapes::Zshape => vec![bits("##..##..."), bits("..#.##.#."), bits("...##..##"), bits(".#.##.#..")],
        Shapes::Jshape => vec![bits("#..###..."), bits(".##.#..#."), bits("...###..#"), bits(".#..#.##.")],
        Shapes::Lshape => vec![bits("..####..."), bits(".#..#..##"), bits("...####.."), bits("##..#..#.")],
    }
}

const KINDS: [Shapes; 7] = [
    Shapes::Tshape,
    Shapes::Ishape,
    Shapes::Oshape,
    Shapes::Sshape,
    Shapes::Zshape,
    Shapes::Jshape,
    Shapes::Lshape,
];

#[test]
fn draw_selects_kind_in_order() {
    for n in 0..21usize {
        let s = Shape::new(10, n);
        assert_eq!(s.shape, KINDS[n % 7]);
    }
}

#[test]
fn spawn_position_and_box() {
    for n in 0..7usize {
        let s = Shape::new(10, n);
        assert_eq!((s.x, s.y, s.rotate), (3, 0, 0));
        let side = match s.shape {
            Shapes::Ishape => 4,
            Shapes::Oshape => 2,
            _ => 3,
        };
        assert_eq!((s.dx, s.dy), (side, side));
        assert_eq!(s.canvas.len(), side * side);
    }
    assert_eq!(Shape::new(20, 0).x, 8);
    assert_eq!(Shape::new(3, 0).x, -1);
}

#[test]
fn every_orientation_matches_table() {
    for n in 0..7usize {
        let mut s = Shape::new(10, n);
        let t = table(s.shape);
        assert_eq!(s.canvas, t[0]);
        for r in 1..4 {
            let copy = s.rotate(1);
            assert_eq!(s.rotate, r as i32);
            assert_eq!(s.canvas, t[r]);
            assert_eq!(copy.canvas, t[r]);
            assert!(s.canvas.iter().any(|b| *b));
            assert_eq!(s.canvas.iter().filter(|b| **b).count(), 4);
        }
    }
}

#[test]
fn four_clockwise_turns_come_back() {
    for n in 0..7usize {
        for start in 0..4 {
            let mut s = Shape::new(10, n);
            for _ in 0..start {
                s.rotate(1);
            }
            let before = s.canvas.clone();
            let r0 = s.rotate;
            for _ in 0..4 {
                s.rotate(1);
            }
            assert_eq!(s.canvas, before);
            assert_eq!(s.rotate, r0);
        }
    }
}

#[test]
fn opposite_turns_cancel() {
    for n in 0..7usize {
        for start in 0..4 {
            let mut s = Shape::new(10, n);
            for _ in 0..start {
                s.rotate(1);
            }
            let before = s.canvas.clone();
            s.rotate(-1);
            s.rotate(1);
            assert_eq!(s.canvas, before);
            s.rotate(1);
            s.rotate(-1);
            assert_eq!(s.canvas, before);
            assert_eq!(s.rotate, start);
        }
    }
}

#[test]
fn counter_clockwise_from_zero_wraps_to_three() {
    let mut s = Shape::new(10, 0);
    let copy = s.rotate(-1);
    assert_eq!(s.rotate, 3);
    assert_eq!(copy.rotate, 3);
    assert_eq!(s.canvas, bits(".#..##.#."));
    assert_eq!((s.x, s.y), (3, 0));
}

#[test]
fn minmax_gives_occupied_column_extent() {
    let mut t = Shape::new(10, 0);
    assert_eq!(t.minmax(), (0, 2));
    t.rotate(1);
    assert_eq!(t.minmax(), (0, 1));
    t.rotate(1);
    t.rotate(1);
    assert_eq!(t.minmax(), (1, 2));

    let mut i = Shape::new(10, 1);
    assert_eq!(i.minmax(), (0, 3));
    i.rotate(1);
    assert_eq!(i.minmax(), (2, 2));
    i.rotate(1);
    i.rotate(1);
    assert_eq!(i.minmax(), (1, 1));

    let o = Shape::new(10, 2);
    assert_eq!(o.minmax(), (0, 1));
}

#[test]
fn duplicate_copies_every_field() {
    let mut s = Shape::new(10, 4);
    s.rotate(1);
    s.x = 5;
    s.y = 7;
    let d = s.duplicate();
    assert_eq!((d.shape, d.x, d.y, d.dx, d.dy, d.rotate), (s.shape, 5, 7, 3, 3, 1));
    assert_eq!(d.canvas, s.canvas);
}
