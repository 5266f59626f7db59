use renzora_plugins::polyhaven::api::{Asset, Kind};
use renzora_plugins::polyhaven::hub::{can_turn, Catalogue, Hub, Job, Msg, JOB_HISTORY, PAGE_SIZE};

fn job(slug: &str, outcome: Option<Result<String, String>>) -> Job {
    Job {
        slug: slug.to_string(),
        kind: Kind::Models,
        folder: String::new(),
        done: 0,
        total: 1,
        outcome,
        handed_off: false,
    }
}

/// A hub holding `n` models named `a0`, `a1`, ...
fn hub_of(n: usize) -> Hub {
    let mut hub = Hub::default();
    hub.kind = Kind::Models;
    hub.catalogues[Kind::Models.index()] = Catalogue::Ready(
        (0..n)
            .map(|i| Asset { slug: format!("a{i}"), name: format!("a{i}"), ..Default::default() })
            .collect(),
    );
    hub
}

#[test]
fn finished_jobs_are_trimmed_and_running_ones_are_not() {
    let mut hub = Hub::default();
    for i in 0..JOB_HISTORY + 3 {
        hub.jobs.push(Job {
            slug: format!("s{i}"),
            kind: Kind::Models,
            folder: String::new(),
            done: 0,
            total: 1,
            outcome: if i == 0 { None } else { Some(Ok(String::new())) },
            handed_off: false,
        });
    }
    hub.apply(Msg::Progress { slug: "s0".into(), done: 1, total: 1 });
    assert_eq!(hub.jobs.len(), JOB_HISTORY);
    assert!(hub.jobs.iter().any(|j| j.slug == "s0"), "the running job survives");
}

#[test]
fn a_catalogue_result_lands_on_its_own_tab() {
    let mut hub = Hub::default();
    hub.apply(Msg::Catalogue {
        kind: Kind::Hdris,
        result: Ok(vec![Asset { slug: "a".into(), name: "A".into(), ..Default::default() }]),
    });
    assert!(matches!(hub.catalogues[Kind::Hdris.index()], Catalogue::Ready(_)));
    assert!(matches!(hub.catalogues[Kind::Models.index()], Catalogue::Idle));
}

#[test]
fn page_count_is_never_zero() {
    assert_eq!(hub_of(0).page_count(), 1, "empty is page 1 of 1, not 1 of 0");
    assert_eq!(hub_of(1).page_count(), 1);
    assert_eq!(hub_of(PAGE_SIZE).page_count(), 1, "an exact fit is one page");
    assert_eq!(hub_of(PAGE_SIZE + 1).page_count(), 2);
}

#[test]
fn paging_stops_at_both_ends() {
    let mut hub = hub_of(PAGE_SIZE * 2 + 1);
    assert_eq!(hub.page_count(), 3);
    hub.turn_page(-1);
    assert_eq!(hub.page_index, 0, "already at the first page");
    hub.turn_page(1);
    hub.turn_page(1);
    hub.turn_page(1);
    assert_eq!(hub.page_index, 2, "clamped to the last page");
}

#[test]
fn each_page_is_its_own_window() {
    let mut hub = hub_of(PAGE_SIZE + 5);
    let first: Vec<String> = hub.page().iter().map(|a| a.slug.clone()).collect();
    assert_eq!(first.len(), PAGE_SIZE);
    hub.turn_page(1);
    let second: Vec<String> = hub.page().iter().map(|a| a.slug.clone()).collect();
    assert_eq!(second.len(), 5, "the last page is a partial one");
    assert!(second.iter().all(|s| !first.contains(s)), "pages must not overlap");
}

#[test]
fn a_stale_page_index_clamps_to_a_real_page() {
    let mut hub = hub_of(PAGE_SIZE * 3);
    hub.turn_page(2);
    assert_eq!(hub.page_index, 2);
    hub.terms = vec!["a1".into()];
    let page = hub.page();
    assert!(!page.is_empty(), "a narrowed list must not show an empty grid");
    assert_eq!(page.len(), hub.visible().len().min(PAGE_SIZE));
}

#[test]
fn search_narrows_the_visible_set() {
    let mut hub = Hub::default();
    hub.kind = Kind::Models;
    hub.catalogues[Kind::Models.index()] = Catalogue::Ready(vec![
        Asset { slug: "arm_chair".into(), name: "Arm Chair".into(), ..Default::default() },
        Asset { slug: "old_barrel".into(), name: "Old Barrel".into(), ..Default::default() },
    ]);
    assert_eq!(hub.visible().len(), 2);
    hub.terms = vec!["chair".into()];
    assert_eq!(hub.visible().len(), 1);
}

#[test]
fn a_failed_catalogue_keeps_its_reason() {
    let mut hub = Hub::default();
    hub.apply(Msg::Catalogue { kind: Kind::Models, result: Err("offline".into()) });
    assert!(matches!(&hub.catalogues[Kind::Models.index()], Catalogue::Failed(w) if w == "offline"));
    assert_eq!(hub.status(), "Could not load the catalogue: offline");
}

#[test]
fn the_status_line_follows_the_catalogue() {
    let mut hub = Hub::default();
    assert_eq!(hub.status(), "Opening…");
    assert_eq!(hub.kick(), Some(Kind::Models));
    assert_eq!(hub.status(), "Fetching the Models catalogue…");
    assert_eq!(hub.kick(), None, "a catalogue already loading is not fetched twice");
    let mut hub = hub_of(3);
    assert_eq!(hub.status(), "3 models");
    hub.terms = vec!["a1".into()];
    assert_eq!(hub.status(), "1 of 3 models");
}

#[test]
fn the_page_label_counts_from_one() {
    let mut hub = hub_of(PAGE_SIZE * 2);
    assert_eq!(hub.page_label(), "1 / 2");
    hub.turn_page(1);
    assert_eq!(hub.page_label(), "2 / 2");
    assert!(!can_turn(&hub, 1));
    assert!(can_turn(&hub, -1));
}

#[test]
fn a_new_search_goes_back_to_the_first_page() {
    let mut hub = hub_of(PAGE_SIZE * 3);
    hub.turn_page(2);
    hub.set_search("  Arm   CHAIR ");
    assert_eq!(hub.terms, vec!["arm".to_string(), "chair".to_string()]);
    assert_eq!(hub.page_index, 0);
    hub.turn_page(1);
    hub.set_search("arm chair");
    assert_eq!(hub.page_index, 0, "no match at all means one page");
    let mut hub = hub_of(PAGE_SIZE * 3);
    hub.set_search("a");
    hub.turn_page(1);
    hub.set_search(" A ");
    assert_eq!(hub.page_index, 1, "the same terms keep the page");
}

#[test]
fn switching_tabs_resets_the_page() {
    let mut hub = hub_of(PAGE_SIZE * 3);
    hub.turn_page(1);
    hub.set_kind(Kind::Models);
    assert_eq!(hub.page_index, 1);
    hub.set_kind(Kind::Hdris);
    assert_eq!(hub.kind, Kind::Hdris);
    assert_eq!(hub.page_index, 0);
    hub.set_res("4k");
    assert_eq!(hub.res, "4k");
}

#[test]
fn a_job_says_what_it_is_doing() {
    let mut j = job("s", None);
    j.total = 0;
    assert_eq!(j.label(), "fetching file list");
    j.total = 5;
    j.done = 2;
    assert_eq!(j.label(), "2/5 files");
    j.outcome = Some(Ok("models/s".into()));
    assert_eq!(j.label(), "importing");
    j.handed_off = true;
    assert_eq!(j.label(), "imported");
    j.outcome = Some(Err("HTTP 404".into()));
    assert_eq!(j.label(), "HTTP 404");
    assert!(!j.running());
}

#[test]
fn finished_models_are_handed_off_once() {
    let mut hub = Hub::default();
    hub.start_job("tex".into(), Kind::Textures, "textures/tex".into());
    hub.start_job("chair".into(), Kind::Models, "models/chair".into());
    assert_eq!(hub.jobs[0].slug, "chair", "newest first");
    hub.apply(Msg::Finished { slug: "chair".into(), result: Ok("models/chair".into()) });
    hub.apply(Msg::Finished { slug: "tex".into(), result: Ok("textures/tex".into()) });
    assert_eq!(hub.hand_off(), vec!["models/chair".to_string()]);
    assert!(hub.jobs[0].handed_off);
    assert!(!hub.jobs[1].handed_off, "a texture is not a model to import");
    assert!(hub.hand_off().is_empty());
}

#[test]
fn progress_updates_the_job_it_names() {
    let mut hub = Hub::default();
    hub.start_job("a".into(), Kind::Models, "m/a".into());
    hub.apply(Msg::Progress { slug: "a".into(), done: 3, total: 4 });
    let j = hub.job("a").unwrap();
    assert_eq!((j.done, j.total), (3, 4));
    assert!(hub.job("b").is_none());
    hub.apply(Msg::Progress { slug: "b".into(), done: 1, total: 1 });
    assert_eq!(hub.jobs.len(), 1);
}

#[test]
fn a_hub_starts_idle_on_models() {
    let hub = Hub::default();
    assert_eq!(hub.kind, Kind::Models);
    assert_eq!(hub.res, "2k");
    assert!(hub.catalogues.iter().all(|c| matches!(c, Catalogue::Idle)));
    assert!(hub.jobs.is_empty());
    assert!(matches!(hub.catalogue(), Catalogue::Idle));
}

#[test]
fn trimming_drops_the_oldest_finished_jobs() {
    let mut hub = Hub::default();
    // Newest first: s0 is the newest. s1 and s5 run, the rest are finished.
    for i in 0..JOB_HISTORY + 3 {
        let running = i == 1 || i == 5;
        hub.jobs.push(job(&format!("s{i}"), if running { None } else { Some(Ok(String::new())) }));
    }
    hub.apply(Msg::Progress { slug: "nobody".into(), done: 0, total: 0 });
    let slugs: Vec<&str> = hub.jobs.iter().map(|j| j.slug.as_str()).collect();
    assert_eq!(slugs, ["s0", "s1", "s2", "s3", "s4", "s5"]);
}
