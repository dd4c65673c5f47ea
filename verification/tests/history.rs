use ff_core::history::{abbreviate, Move};

#[test]
fn the_move_names_are_the_ones_the_rows_print() {
    assert_eq!(Move::Now.as_str(), "now");
    assert_eq!(Move::Undo.as_str(), "undo");
    assert_eq!(Move::Redo.as_str(), "redo");
}

#[test]
fn a_row_shows_at_least_four_letters_and_eight_by_default() {
    let id = "qtwplrskwswwkymmtlynvxrlzvwvurzs";
    assert_eq!(abbreviate(id, Some(2)), "qtwp");
    assert_eq!(abbreviate(id, Some(6)), "qtwplr");
    assert_eq!(abbreviate(id, None), "qtwplrsk");
    assert_eq!(abbreviate("abc", Some(6)), "abc");
}
