use organomenar::graph::{GraphError, Position, UiBlock};
use organomenar::history::{redo_last, undo_last, UiAction, UiState};
use organomenar::naming::anomena;
use organomenar::radical::UiRadical;

fn block(id: u128, radical: UiRadical) -> UiBlock {
    UiBlock {
        pos: Position { x: 10 * id as u32, y: 3 },
        radical,
        links: vec![],
        id,
    }
}

fn snapshot(st: &UiState) -> Vec<(u128, UiRadical, Position, Vec<u128>)> {
    let mut v: Vec<_> = st
        .uiblocks
        .iter()
        .map(|b| {
            let mut l = b.links.clone();
            l.sort();
            (b.id, b.radical, b.pos, l)
        })
        .collect();
    v.sort_by_key(|e| e.0);
    v
}

fn molecule() -> UiState {
    let mut st = UiState::new(800, 600);
    st.add_radical(block(1, UiRadical::C)).unwrap();
    st.add_radical(block(2, UiRadical::C)).unwrap();
    st.add_radical(block(3, UiRadical::Alcohol)).unwrap();
    st.link_radicals(1, 2).unwrap();
    st.link_radicals(2, 3).unwrap();
    st.link_radicals(1, 2).unwrap();
    st
}

#[test]
fn new_state_is_empty() {
    let st = UiState::new(1000, 700);
    assert!(st.uiblocks.is_empty());
    assert!(st.undo_list.is_empty() && st.redo_list.is_empty());
    assert_eq!(st.window_dims, (1000, 700));
    assert!(st.held.is_none() && !st.is_help_up && st.naming_text.is_none());
}

#[test]
fn undo_and_redo_each_edit() {
    let mut st = molecule();
    let before = snapshot(&st);
    st.delete_radical(2).unwrap();
    let after = snapshot(&st);
    assert_ne!(before, after);
    undo_last(&mut st);
    assert_eq!(snapshot(&st), before);
    redo_last(&mut st);
    assert_eq!(snapshot(&st), after);

    let mut st = molecule();
    let before = snapshot(&st);
    assert_eq!(st.unlink_radicals(2, 1), Ok(true));
    let after = snapshot(&st);
    undo_last(&mut st);
    assert_eq!(snapshot(&st), before);
    redo_last(&mut st);
    assert_eq!(snapshot(&st), after);

    let mut st = molecule();
    let before = snapshot(&st);
    st.add_radical(block(4, UiRadical::F)).unwrap();
    st.link_radicals(4, 1).unwrap();
    let after = snapshot(&st);
    undo_last(&mut st);
    undo_last(&mut st);
    assert_eq!(snapshot(&st), before);
    redo_last(&mut st);
    redo_last(&mut st);
    assert_eq!(snapshot(&st), after);
}

#[test]
fn undo_restores_moves() {
    let mut st = molecule();
    let before = snapshot(&st);
    let from = st.uiblocks[0].pos;
    let to = Position { x: 500, y: 400 };
    organomenar::graph::set_position(&mut st.uiblocks, 1, to).unwrap();
    st.push_to_undo(UiAction::MoveRadicals(vec![(1, from, to)]));
    let after = snapshot(&st);
    undo_last(&mut st);
    assert_eq!(snapshot(&st), before);
    assert_eq!(st.uiblocks[0].pos, from);
    redo_last(&mut st);
    assert_eq!(snapshot(&st), after);
}

#[test]
fn undo_beyond_history_does_nothing() {
    let mut st = UiState::new(10, 10);
    st.add_radical(block(1, UiRadical::C)).unwrap();
    undo_last(&mut st);
    assert!(st.uiblocks.is_empty());
    undo_last(&mut st);
    undo_last(&mut st);
    assert!(st.uiblocks.is_empty());
    assert_eq!(st.redo_list.len(), 1);
    redo_last(&mut st);
    redo_last(&mut st);
    assert_eq!(st.uiblocks.len(), 1);
    assert_eq!(st.undo_list.len(), 1);
    assert!(st.redo_list.is_empty());
}

#[test]
fn new_edit_clears_redo() {
    let mut st = molecule();
    undo_last(&mut st);
    assert_eq!(st.redo_list.len(), 1);
    st.add_radical(block(9, UiRadical::Br)).unwrap();
    assert!(st.redo_list.is_empty());
}

#[test]
fn recorded_edit_errors() {
    let mut st = molecule();
    assert_eq!(st.add_radical(block(1, UiRadical::F)), Err(GraphError::DuplicateIdentifier(1)));
    assert_eq!(st.delete_radical(42), Err(GraphError::NotFound(42)));
    assert_eq!(st.link_radicals(1, 1), Err(GraphError::SelfBond(1)));
    assert_eq!(st.unlink_radicals(1, 3), Ok(false));
    assert_eq!(st.undo_list.len(), 6);
}

#[test]
fn undo_skips_missing_nodes() {
    let mut st = molecule();
    st.push_to_undo(UiAction::AddLink(1, 77));
    st.push_to_undo(UiAction::MoveRadicals(vec![(77, Position { x: 0, y: 0 }, Position { x: 1, y: 1 })]));
    let before = snapshot(&st);
    undo_last(&mut st);
    undo_last(&mut st);
    assert_eq!(snapshot(&st), before);
}

#[test]
fn opposite_swaps() {
    let a = UiAction::MoveRadicals(vec![(1, Position { x: 1, y: 2 }, Position { x: 3, y: 4 })]);
    match a.opposite() {
        UiAction::MoveRadicals(v) => assert_eq!(v, vec![(1, Position { x: 3, y: 4 }, Position { x: 1, y: 2 })]),
        _ => panic!("wrong variant"),
    }
    assert!(matches!(UiAction::AddLink(1, 2).opposite(), UiAction::DeleteLink(2, 1)));
    assert!(matches!(UiAction::DeleteLink(1, 2).opposite(), UiAction::AddLink(2, 1)));
    match UiAction::AddRadical(block(5, UiRadical::C)).opposite() {
        UiAction::DeleteRadical(b) => assert_eq!(b.id, 5),
        _ => panic!("wrong variant"),
    }
}

#[test]
fn naming_fluorine_needs_carbon() {
    let mut st = UiState::new(10, 10);
    st.add_radical(block(1, UiRadical::F)).unwrap();
    let b = st.uiblocks[0].duplicate();
    assert_eq!(
        anomena(&st.uiblocks, &b).unwrap(),
        "ERR: La molecula (sota el cursor) ha de contindre carboni"
    );
}

#[test]
fn naming_reports_cycle_before_carbon() {
    let mut st = UiState::new(10, 10);
    for id in 1..=3 {
        st.add_radical(block(id, UiRadical::C)).unwrap();
    }
    st.link_radicals(1, 2).unwrap();
    st.link_radicals(2, 3).unwrap();
    st.link_radicals(3, 1).unwrap();
    let b = st.uiblocks[1].duplicate();
    assert_eq!(anomena(&st.uiblocks, &b).unwrap(), "ERR: La molecula conté un cicle :c");
}

#[test]
fn naming_stops_after_checks() {
    let st = molecule();
    let b = st.uiblocks[2].duplicate();
    assert_eq!(
        anomena(&st.uiblocks, &block(2, UiRadical::C)).unwrap(),
        "ERR: La molecula conté un cicle :c"
    );
    let mut st = UiState::new(10, 10);
    st.add_radical(block(1, UiRadical::C)).unwrap();
    st.add_radical(block(2, UiRadical::Alcohol)).unwrap();
    st.link_radicals(1, 2).unwrap();
    let b2 = st.uiblocks[1].duplicate();
    assert_eq!(anomena(&st.uiblocks, &b2).unwrap(), "Encara noooo");
    assert_eq!(anomena(&st.uiblocks, &block(8, UiRadical::C)), Err(GraphError::NotFound(8)));
    let _ = b;
}
