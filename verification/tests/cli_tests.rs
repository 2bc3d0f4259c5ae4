use firmware_tool::cli::{select_action, Action};

#[test]
fn wrong_arity_asks_only_for_usage() {
    assert_eq!(select_action(2, "unpack"), Action::Usage);
    assert_eq!(select_action(3, "pack"), Action::Usage);
    assert_eq!(select_action(5, "unpack"), Action::Usage);
    assert_eq!(select_action(0, ""), Action::Usage);
}

#[test]
fn literal_modes_select_their_operation() {
    assert_eq!(select_action(4, "unpack"), Action::Unpack);
    assert_eq!(select_action(4, "pack"), Action::Pack);
}

#[test]
fn any_other_mode_asks_for_usage() {
    assert_eq!(select_action(4, "Unpack"), Action::Usage);
    assert_eq!(select_action(4, "repack"), Action::Usage);
    assert_eq!(select_action(4, ""), Action::Usage);
}
