use fast_down::manager::{apply_action, Action, DownloadResult, Effect, ManagerData};

fn task(url: &str, handle: Option<u64>, path: Option<&str>) -> ManagerData {
    ManagerData {
        result: handle.map(|handle_id| DownloadResult { handle_id }),
        url: String::from(url),
        file_path: path.map(String::from),
    }
}

#[test]
fn add_task_inserts_at_the_front_and_spawns() {
    let mut list = vec![task("http://a.test/x", None, None)];
    let effects = apply_action(&mut list, Action::AddTask(String::from("http://b.test/y")));
    assert_eq!(list.len(), 2);
    assert_eq!(list[0].url, "http://b.test/y");
    assert!(list[0].result.is_none());
    assert_eq!(list[1].url, "http://a.test/x");
    assert_eq!(effects.len(), 1);
    match &effects[0] {
        Effect::Spawn { url, resume } => {
            assert_eq!(url, "http://b.test/y");
            assert!(!resume);
        },
        _ => panic!("expected a spawn"),
    }
}

#[test]
fn stop_cancels_the_live_engine_and_keeps_the_entry() {
    let mut list = vec![task("http://a.test/x", Some(7), Some("/tmp/x"))];
    let effects = apply_action(&mut list, Action::Stop(0));
    assert_eq!(list.len(), 1);
    assert!(list[0].result.is_none());
    assert_eq!(list[0].url, "http://a.test/x");
    assert_eq!(list[0].file_path.as_deref(), Some("/tmp/x"));
    assert_eq!(effects.len(), 1);
    match &effects[0] {
        Effect::Cancel(h) => assert_eq!(h.handle_id, 7),
        _ => panic!("expected a cancel"),
    }
}

#[test]
fn stop_of_a_stopped_task_does_nothing_outside() {
    let mut list = vec![task("http://a.test/x", None, None)];
    let effects = apply_action(&mut list, Action::Stop(0));
    assert!(effects.is_empty());
}

#[test]
fn resume_cancels_any_live_engine_before_spawning() {
    let mut list = vec![
        task("http://a.test/x", Some(3), Some("/tmp/x")),
        task("http://b.test/y", None, None),
    ];
    let effects = apply_action(&mut list, Action::Resume(0));
    assert_eq!(list.len(), 2);
    assert!(list[0].result.is_none());
    assert_eq!(list[0].url, "http://a.test/x");
    assert_eq!(effects.len(), 2);
    match &effects[0] {
        Effect::Cancel(h) => assert_eq!(h.handle_id, 3),
        _ => panic!("expected the cancel first"),
    }
    match &effects[1] {
        Effect::Spawn { url, resume } => {
            assert_eq!(url, "http://a.test/x");
            assert!(resume);
        },
        _ => panic!("expected a spawn"),
    }
}

#[test]
fn remove_task_drops_the_entry_and_its_record() {
    let mut list = vec![
        task("http://a.test/x", Some(1), Some("/tmp/x")),
        task("http://b.test/y", None, None),
    ];
    let effects = apply_action(&mut list, Action::RemoveTask(0));
    assert_eq!(list.len(), 1);
    assert_eq!(list[0].url, "http://b.test/y");
    assert_eq!(effects.len(), 2);
    match &effects[0] {
        Effect::Cancel(h) => assert_eq!(h.handle_id, 1),
        _ => panic!("expected a cancel"),
    }
    match &effects[1] {
        Effect::RemoveRecord(p) => assert_eq!(p, "/tmp/x"),
        _ => panic!("expected a record removal"),
    }
}

#[test]
fn remove_task_without_engine_or_record_is_silent() {
    let mut list = vec![task("http://a.test/x", None, None)];
    let effects = apply_action(&mut list, Action::RemoveTask(0));
    assert!(list.is_empty());
    assert!(effects.is_empty());
}
