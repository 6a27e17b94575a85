use buildsmith::watch::{ignored_path, Debouncer, WatchAction, WatchEvent};

fn change(paths: &[&str]) -> WatchEvent {
    WatchEvent::Change { relevant: true, paths: paths.iter().map(|p| p.to_string()).collect() }
}

#[test]
fn cache_and_target_paths_are_ignored() {
    assert!(ignored_path("/p/.buildsmith/cache/ab/abcdef"));
    assert!(ignored_path("/p/target/debug/x"));
    assert!(!ignored_path("/p/src/main.rs"));
    assert!(!ignored_path("/p/targets.txt"));
}

#[test]
fn rebuild_after_changes_settle() {
    let mut d = Debouncer::new();
    assert_eq!(d.on_event(&WatchEvent::Quiet, 0), WatchAction::Wait);
    assert_eq!(d.on_event(&change(&["/p/src/a.rs"]), 10), WatchAction::Wait);
    assert_eq!(d.on_event(&WatchEvent::Quiet, 100), WatchAction::Wait);
    assert_eq!(d.on_event(&change(&["/p/src/b.rs"]), 150), WatchAction::Wait);
    assert_eq!(d.on_event(&WatchEvent::Quiet, 300), WatchAction::Wait);
    assert_eq!(d.on_event(&WatchEvent::Error, 350), WatchAction::Rebuild);
    assert_eq!(d.on_event(&WatchEvent::Quiet, 1000), WatchAction::Wait);
}

#[test]
fn ignored_and_irrelevant_changes_do_not_count() {
    let mut d = Debouncer::new();
    assert_eq!(d.on_event(&change(&["/p/src/a.rs", "/p/target/x"]), 0), WatchAction::Wait);
    let access = WatchEvent::Change { relevant: false, paths: vec!["/p/src/a.rs".to_string()] };
    assert_eq!(d.on_event(&access, 10), WatchAction::Wait);
    assert_eq!(d.on_event(&WatchEvent::Quiet, 1000), WatchAction::Wait);
}

#[test]
fn closing_stops() {
    let mut d = Debouncer::new();
    assert_eq!(d.on_event(&WatchEvent::Closed, 0), WatchAction::Stop);
}
