use rookery::{Bitboard, Color, Square, attacks};

fn sq(s: &str) -> Square {
    Square::from_name(s).unwrap()
}

fn mask(squares: &[&str]) -> Bitboard {
    squares.iter().fold(0, |bb, s| bb | sq(s).bit())
}

#[test]
fn square_names_and_indices() {
    assert_eq!(sq("a1").index(), 0);
    assert_eq!(sq("h8").index(), 63);
    assert_eq!(sq("c5").name(), "c5");
    assert!(Square::from_name("i1").is_none());
    assert!(Square::from_name("a0").is_none());
}

#[test]
fn start_position_leaper_attacks() {
    assert_eq!(attacks::knight(sq("b1")), mask(&["a3", "c3", "d2"]));
    assert_eq!(
        attacks::king(sq("e1")),
        mask(&["d1", "f1", "d2", "e2", "f2"])
    );
    assert_eq!(attacks::pawn(sq("e2"), Color::White), mask(&["d3", "f3"]));
    assert_eq!(attacks::pawn(sq("e7"), Color::Black), mask(&["d6", "f6"]));
}

#[test]
fn rook_ray_stops_after_and_includes_blocker() {
    let occupied = sq("a4").bit() | sq("d1").bit();
    assert_eq!(
        attacks::rook(sq("a1"), occupied),
        mask(&["a2", "a3", "a4", "b1", "c1", "d1"])
    );
}

#[test]
fn bishop_and_queen_rays_from_the_centre() {
    let occupied = sq("f6").bit() | sq("c3").bit();
    assert_eq!(
        attacks::bishop(sq("d4"), occupied),
        mask(&["e5", "f6", "c3", "e3", "f2", "g1", "c5", "b6", "a7"])
    );
    assert_eq!(
        attacks::queen(sq("a1"), 0),
        attacks::rook(sq("a1"), 0) | attacks::bishop(sq("a1"), 0)
    );
    assert_eq!(attacks::queen(sq("a1"), 0).count_ones(), 21);
}

#[test]
fn square_offsets_and_coordinates() {
    assert_eq!(sq("e4").offset(1, 1), Some(sq("f5")));
    assert_eq!(sq("h4").offset(1, 0), None);
    assert_eq!(sq("a1").offset(0, -1), None);
    assert_eq!(Square::from_coords(4, 3), Some(sq("e4")));
    assert_eq!(Square::from_coords(8, 0), None);
    assert_eq!(Square::new(64), None);
    assert_eq!(sq("g7").file(), 6);
    assert_eq!(sq("g7").rank(), 6);
    assert_eq!(Color::White.opposite(), Color::Black);
}
