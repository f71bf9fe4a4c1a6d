use pomelo_impl::acttab::{ActTab, ActionSet, LookaheadAction};

fn row(cells: &[(usize, usize)]) -> ActionSet {
    let mut set = ActionSet::new();
    for &(lookahead, action) in cells {
        set.add_action(lookahead, action);
    }
    set
}

#[test]
fn first_row_goes_to_the_front() {
    let mut tab = ActTab::new();
    let ofs = tab.insert_action_set(&row(&[(2, 10), (4, 11)]));
    assert_eq!(ofs, -2);
    assert_eq!(
        tab.a_action,
        vec![
            Some(LookaheadAction { lookahead: 2, action: 10 }),
            None,
            Some(LookaheadAction { lookahead: 4, action: 11 }),
        ]
    );
}

#[test]
fn equal_row_is_shared() {
    let mut tab = ActTab::new();
    let first = tab.insert_action_set(&row(&[(1, 7), (3, 8)]));
    let len = tab.a_action.len();
    let second = tab.insert_action_set(&row(&[(1, 7), (3, 8)]));
    assert_eq!(first, second);
    assert_eq!(tab.a_action.len(), len);
}

#[test]
fn second_row_fills_the_hole() {
    let mut tab = ActTab::new();
    assert_eq!(tab.insert_action_set(&row(&[(0, 1), (2, 2)])), 0);
    // Slot 1 is free, but a row for lookahead 1 at offset 0 would be read by
    // the first row's state too; the row goes where only its own state sees it.
    let ofs = tab.insert_action_set(&row(&[(1, 5)]));
    assert_eq!(ofs, 2);
    assert_eq!(tab.a_action[3], Some(LookaheadAction { lookahead: 1, action: 5 }));
    assert_eq!(tab.a_action[1], None);
}

#[test]
fn storing_a_row_has_one_outcome() {
    let mut one = ActTab::new();
    let mut other = ActTab::new();
    for tab in [&mut one, &mut other] {
        tab.insert_action_set(&row(&[(0, 1), (2, 2)]));
        tab.insert_action_set(&row(&[(1, 5)]));
    }
    let a = one.insert_action_set(&row(&[(1, 3), (2, 4)]));
    let b = other.insert_action_set(&row(&[(1, 3), (2, 4)]));
    assert_eq!(a, b);
    assert_eq!(one.a_action, other.a_action);
}

#[test]
fn row_behind_a_gap_is_shared_where_it_stands() {
    let mut tab = ActTab::new();
    assert_eq!(tab.insert_action_set(&row(&[(0, 1)])), 0);
    // slot 1 would be read by the first row's state: the row lands in slot 2
    assert_eq!(tab.insert_action_set(&row(&[(1, 9)])), 1);
    let before = tab.a_action.clone();
    assert_eq!(tab.insert_action_set(&row(&[(1, 9)])), 1);
    assert_eq!(tab.a_action, before);
}

#[test]
fn storing_keeps_what_is_stored() {
    let mut tab = ActTab::new();
    tab.insert_action_set(&row(&[(2, 10), (4, 11)]));
    let before = tab.a_action.clone();
    tab.insert_action_set(&row(&[(0, 3), (1, 4)]));
    assert!(tab.a_action.len() >= before.len());
    for (k, cell) in before.iter().enumerate() {
        if cell.is_some() {
            assert_eq!(tab.a_action[k], *cell);
        }
    }
}
