use indexmap::IndexMap;
use jetbrains_search_provider::items::{App, LaunchItem, SessionError};
use jetbrains_search_provider::provider::{launch_outcome, AppItemSearchProvider};
use jetbrains_search_provider::MainLoopError;

#[test]
fn main_loop_error_has_a_message() {
    assert_eq!(MainLoopError::FailedToAcquireContext.message(), "Failed to acquire context");
}

fn app() -> App {
    App { id: "jetbrains-idea.desktop".to_string(), icon: "idea-icon".to_string() }
}

fn fixture() -> IndexMap<String, LaunchItem> {
    let mut m = IndexMap::new();
    m.insert(
        "a".to_string(),
        LaunchItem { name: "Foo".to_string(), uri: "/home/x/foo".to_string() },
    );
    m.insert(
        "b".to_string(),
        LaunchItem { name: "Baz".to_string(), uri: "/home/x/baz".to_string() },
    );
    m
}

fn searched_session() -> AppItemSearchProvider {
    let mut s = AppItemSearchProvider::new(app());
    let g = s.begin_search();
    let r = s.complete_search(g, Ok(fixture()), &vec!["foo".to_string()]);
    assert!(r.is_ok());
    s
}

#[test]
fn fresh_sessions_can_begin_searches() {
    let mut s = AppItemSearchProvider::new(app());
    assert!(s.can_begin_search());
    assert_eq!(s.begin_search(), 1);
    assert_eq!(s.begin_search(), 2);
}

#[test]
fn full_search_ranks_matching_ids() {
    let mut s = AppItemSearchProvider::new(app());
    let g = s.begin_search();
    let ids = s.complete_search(g, Ok(fixture()), &vec!["foo".to_string()]).unwrap();
    assert_eq!(ids, vec!["a"]);
}

#[test]
fn full_search_without_match_returns_nothing() {
    let mut s = AppItemSearchProvider::new(app());
    let g = s.begin_search();
    let ids = s.complete_search(g, Ok(fixture()), &vec!["zzz".to_string()]).unwrap();
    assert!(ids.is_empty());
}

#[test]
fn failed_fetch_keeps_previous_cache() {
    let mut s = searched_session();
    let g = s.begin_search();
    let r = s.complete_search(g, Err("bus unreachable".to_string()), &vec!["foo".to_string()]);
    match r {
        Err(SessionError::SourceUnavailable(msg)) => assert_eq!(msg, "bus unreachable"),
        _ => panic!("expected SourceUnavailable"),
    }
    // The old result set stays authoritative for the other operations.
    let metas = s.get_result_metas(&vec!["a".to_string()]);
    assert_eq!(metas.len(), 1);
    assert_eq!(metas[0].name, "Foo");
}

#[test]
fn stale_fetch_is_discarded() {
    // Two searches are begun in order; the newer one completes first. The
    // slower, older fetch must not clobber the newer result set.
    let mut s = AppItemSearchProvider::new(app());
    let g1 = s.begin_search();
    let g2 = s.begin_search();

    let mut newer = IndexMap::new();
    newer.insert(
        "new".to_string(),
        LaunchItem { name: "Foo New".to_string(), uri: "/n/foo".to_string() },
    );
    let mut older = IndexMap::new();
    older.insert(
        "old".to_string(),
        LaunchItem { name: "Foo Old".to_string(), uri: "/o/foo".to_string() },
    );

    let terms = vec!["foo".to_string()];
    let first = s.complete_search(g2, Ok(newer), &terms).unwrap();
    assert_eq!(first, vec!["new"]);
    // The stale completion still answers, ranked against the applied state.
    let second = s.complete_search(g1, Ok(older), &terms).unwrap();
    assert_eq!(second, vec!["new"]);
    // The installed set is the one fetched for the later request.
    let metas = s.get_result_metas(&vec!["new".to_string(), "old".to_string()]);
    assert_eq!(metas.len(), 1);
    assert_eq!(metas[0].id, "new");
}

#[test]
fn superseded_fetch_ranks_its_own_data_when_nothing_newer_applied() {
    let mut s = AppItemSearchProvider::new(app());
    let g1 = s.begin_search();
    let _g2 = s.begin_search();
    let terms = vec!["foo".to_string()];
    let ids = s.complete_search(g1, Ok(fixture()), &terms).unwrap();
    // The fetch is not applied, but its ranking is still returned.
    assert_eq!(ids, vec!["a"]);
    let metas = s.get_result_metas(&vec!["a".to_string()]);
    assert!(metas.is_empty());
}

#[test]
fn refine_filters_and_reranks() {
    let s = searched_session();
    let previous = vec!["a".to_string(), "b".to_string()];
    let ids = s.get_subsearch_result_set(&previous, &vec!["ba".to_string()]);
    assert_eq!(ids, vec!["b"]);
}

#[test]
fn refine_drops_unknown_ids_silently() {
    let s = searched_session();
    let previous = vec!["a".to_string(), "ghost".to_string()];
    let ids = s.get_subsearch_result_set(&previous, &vec!["foo".to_string()]);
    assert_eq!(ids, vec!["a"]);
}

#[test]
fn refine_never_resurrects_ids_outside_previous() {
    let s = searched_session();
    // "b" is cached but not among the previous results, so it cannot appear.
    let previous = vec!["a".to_string()];
    let ids = s.get_subsearch_result_set(&previous, &vec!["ba".to_string()]);
    assert!(ids.is_empty());
}

#[test]
fn metadata_is_in_request_order_and_skips_unknown() {
    let s = searched_session();
    let metas = s.get_result_metas(&vec!["b".to_string(), "c".to_string(), "a".to_string()]);
    assert_eq!(metas.len(), 2);
    assert_eq!(metas[0].id, "b");
    assert_eq!(metas[0].name, "Baz");
    assert_eq!(metas[0].gicon, "idea-icon");
    assert_eq!(metas[0].description, "/home/x/baz");
    assert_eq!(metas[1].id, "a");
}

#[test]
fn activate_known_id_requests_its_locator() {
    let s = searched_session();
    let req = s.activate_result("a", &vec!["foo".to_string()], 42).unwrap();
    assert_eq!(req.app_id, "jetbrains-idea.desktop");
    assert_eq!(req.uri, Some("/home/x/foo".to_string()));
}

#[test]
fn activate_unknown_id_fails_without_launch() {
    let s = searched_session();
    let r = s.activate_result("c", &vec!["foo".to_string()], 42);
    match r {
        Err(SessionError::ResultNotFound(id)) => assert_eq!(id, "c"),
        _ => panic!("expected ResultNotFound"),
    }
}

#[test]
fn activate_on_empty_session_fails() {
    let s = AppItemSearchProvider::new(app());
    assert!(matches!(
        s.activate_result("a", &Vec::new(), 0),
        Err(SessionError::ResultNotFound(_))
    ));
}

#[test]
fn launch_search_requests_bare_launch() {
    let s = searched_session();
    let req = s.launch_search(&vec!["ignored".to_string()], 7);
    assert_eq!(req.app_id, "jetbrains-idea.desktop");
    assert_eq!(req.uri, None);
}

#[test]
fn launch_outcome_maps_failures() {
    assert!(launch_outcome(Ok(())).is_ok());
    match launch_outcome(Err("dbus said no".to_string())) {
        Err(SessionError::LaunchFailed(msg)) => assert_eq!(msg, "dbus said no"),
        _ => panic!("expected LaunchFailed"),
    }
}

#[test]
fn replaced_cache_serves_all_operations() {
    let mut s = searched_session();
    let g = s.begin_search();
    let mut m = IndexMap::new();
    m.insert(
        "only".to_string(),
        LaunchItem { name: "Foo Two".to_string(), uri: "/two/foo".to_string() },
    );
    s.complete_search(g, Ok(m), &vec!["foo".to_string()]).unwrap();
    // The old ids are gone wholesale.
    assert!(s.get_result_metas(&vec!["a".to_string(), "b".to_string()]).is_empty());
    let req = s.activate_result("only", &Vec::new(), 0).unwrap();
    assert_eq!(req.uri, Some("/two/foo".to_string()));
}
