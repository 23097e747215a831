use gridsearch::excavation::solve;

#[test]
fn lone_diggable_cell_digs_once() {
    // The middle cell digs while level with its neighbors, then the pit
    // walls freeze it.
    assert_eq!(solve(".#.", false), 1);
}

#[test]
fn ring_digs_until_uneven() {
    // The ring digs once everywhere; then only the corners, level with
    // both their neighbors, manage a second strike.
    assert_eq!(solve("###\n#.#\n###", false), 12);
}

#[test]
fn diagonal_mode_counts_the_outside() {
    // With diagonal checking, ground beyond the border counts as undug,
    // so border cells dig exactly once.
    assert_eq!(solve("##\n..", true), 2);
}

#[test]
fn undiggable_plot_stays_level() {
    assert_eq!(solve("...", false), 0);
    assert_eq!(solve("...", true), 0);
}
