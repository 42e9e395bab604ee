use moonlight::state::app::{AppState, Pages};
use moonlight::state::signal::Signal;

type A = AppState<String, u32, u32>;

#[test]
fn a_new_app_starts_loading() {
    let (state, first) = A::new();
    assert_eq!(first, Signal::StartLoading);
    assert_eq!(state.get_page(), Pages::Project);
    assert!(state.get_app_errors().is_empty());
    assert!(state.get_current_tree().is_none());
    assert_eq!(state.title(), "Moonlight");
}

#[test]
fn loading_is_answered_by_finished_loading() {
    let (mut state, first) = A::new();
    assert_eq!(state.update(first), Some(Signal::FinishedLoading));
    assert_eq!(state.update(Signal::FinishedLoading), None);
    assert_eq!(state.get_page(), Pages::Project);
}

#[test]
fn dismissing_errors_empties_them() {
    let (mut state, _) = A::new();
    assert_eq!(state.update(Signal::DismissErrors), None);
    assert!(state.get_app_errors().is_empty());
}

#[test]
fn selecting_a_node_changes_nothing() {
    let (mut state, _) = A::new();
    assert_eq!(state.update(Signal::SelectNode(42)), None);
    assert!(state.get_current_tree().is_none());
    assert!(state.get_app_errors().is_empty());
}

#[test]
fn the_project_page_has_its_name_and_icon() {
    assert_eq!(Pages::Project.page_name(), "Project Space");
    assert_eq!(Pages::Project.page_icon(), "table-cells");
}
