use convinterp::coefficients::Boundary;
use convinterp::coefficients::{boundary_window, choose_ghost_rule, extend_with_ghosts, GhostRule};
use convinterp::coefficients::stencil_half_width;
use convinterp::stencil::locate_cell;

#[test]
fn parse_accepts_the_four_names() {
    assert_eq!(Boundary::parse("poly"), Ok(Boundary::Poly));
    assert_eq!(Boundary::parse("linear"), Ok(Boundary::Linear));
    assert_eq!(Boundary::parse("quadratic"), Ok(Boundary::Quadratic));
    assert_eq!(Boundary::parse("detect"), Ok(Boundary::Detect));
}

#[test]
fn parse_refuses_other_names_with_a_quoted_message() {
    assert_eq!(
        Boundary::parse("Poly"),
        Err("unknown boundary condition \"Poly\" (expected poly, linear, quadratic or detect)"
            .to_string())
    );
    assert_eq!(
        Boundary::parse(""),
        Err("unknown boundary condition \"\" (expected poly, linear, quadratic or detect)"
            .to_string())
    );
    // the name is written in its Debug form: quotes and backslashes escaped
    assert_eq!(
        Boundary::parse("a\"b\\"),
        Err("unknown boundary condition \"a\\\"b\\\\\" (expected poly, linear, quadratic or detect)"
            .to_string())
    );
}

#[test]
fn half_width_of_nearest_neighbour_is_one() {
    assert_eq!(stencil_half_width("a0", None), Ok(1));
    assert_eq!(stencil_half_width("a0", Some(8)), Ok(1));
}

#[test]
fn half_width_is_half_the_columns() {
    assert_eq!(stencil_half_width("a1", Some(2)), Ok(1));
    assert_eq!(stencil_half_width("a3", Some(4)), Ok(2));
    assert_eq!(stencil_half_width("b13", Some(20)), Ok(10));
}

#[test]
fn half_width_of_an_unknown_kernel_is_an_error() {
    assert_eq!(stencil_half_width("zz", None), Err("unknown kernel \"zz\"".to_string()));
}

#[test]
fn ghost_rule_follows_the_boundary_condition() {
    assert_eq!(choose_ghost_rule(Boundary::Poly, false, false), GhostRule::Polynomial);
    assert_eq!(choose_ghost_rule(Boundary::Poly, true, true), GhostRule::Linear);
    assert_eq!(choose_ghost_rule(Boundary::Detect, false, true), GhostRule::Polynomial);
    assert_eq!(choose_ghost_rule(Boundary::Detect, false, false), GhostRule::Linear);
    assert_eq!(choose_ghost_rule(Boundary::Detect, true, true), GhostRule::Linear);
    assert_eq!(choose_ghost_rule(Boundary::Linear, false, true), GhostRule::Linear);
    assert_eq!(choose_ghost_rule(Boundary::Quadratic, false, true), GhostRule::Quadratic);
    assert_eq!(choose_ghost_rule(Boundary::Quadratic, true, false), GhostRule::Quadratic);
}

#[test]
fn boundary_window_reads_what_the_detect_test_needs() {
    // min(n, max(poly_cols + 3, eqs))
    assert_eq!(boundary_window(10, 3, 4), (7, false));
    assert_eq!(boundary_window(3, 3, 4), (3, true));
    assert_eq!(boundary_window(20, 9, 2), (9, false));
    assert_eq!(boundary_window(4, 2, 4), (4, false));
}

#[test]
fn ghosts_surround_the_data() {
    let c = extend_with_ghosts(&[1, 2, 3], &[10, 20], &[30, 40]);
    assert_eq!(c, vec![20, 10, 1, 2, 3, 30, 40]);
    let none: [i32; 0] = [];
    assert_eq!(extend_with_ghosts(&[5, 6], &none, &none), vec![5, 6]);
}

#[test]
fn locate_clamps_the_cell_so_the_stencil_fits() {
    // 4 data values, eqs = 2: 6 extended coefficients, cells 1 ..= 3
    assert_eq!(locate_cell(-5, 2, 6), (0, 1));
    assert_eq!(locate_cell(1, 2, 6), (0, 1));
    assert_eq!(locate_cell(2, 2, 6), (1, 2));
    assert_eq!(locate_cell(3, 2, 6), (2, 3));
    // the last knot's cell takes the stencil of the cell before it
    assert_eq!(locate_cell(4, 2, 6), (2, 3));
    assert_eq!(locate_cell(isize::MAX, 2, 6), (2, 3));
    // nearest neighbour: eqs = 1, no ghosts
    assert_eq!(locate_cell(0, 1, 3), (0, 0));
    assert_eq!(locate_cell(2, 1, 3), (1, 1));
}
