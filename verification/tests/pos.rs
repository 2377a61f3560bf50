use janlukas::pos::{GridPos, IntoPos, Pos};

#[test]
fn pos_holds_its_coordinates() {
    let p = Pos::new(-3, 7);
    assert_eq!(p.x, -3);
    assert_eq!(p.y, 7);
    assert_eq!(Pos::origin(), Pos::new(0, 0));
}

#[test]
fn positions_compare_by_coordinates() {
    assert_eq!(Pos::new(1, 2), Pos::new(1, 2));
    assert_ne!(Pos::new(1, 2), Pos::new(2, 1));
    assert_ne!(Pos::new(1, 2), Pos::new(1, 3));
    assert_eq!(GridPos::new(1, 2), GridPos::new(1, 2));
    assert_ne!(GridPos::new(1, 2), GridPos::new(0, 2));
}

#[test]
fn planner_cell_converts_to_grid_indices() {
    let g: GridPos = Pos::new(12, 900).into_pos();
    assert_eq!(g, GridPos::new(12, 900));
    let g: GridPos = Pos::new(0, 0).into_pos();
    assert_eq!(g, GridPos::new(0, 0));
}

#[test]
fn negative_cell_lands_out_of_every_grid() {
    let g: GridPos = Pos::new(-1, -4).into_pos();
    assert!(g.x > (isize::MAX as usize));
    assert!(g.y > (isize::MAX as usize));
}
