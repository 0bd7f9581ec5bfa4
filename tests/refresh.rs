use hn_telegram::pipeline::{candidates, Resolution, MAX_IN_FLIGHT};
use hn_telegram::{CacheRead, DedupSet, HNItem, LoadWarning, StoryError};

fn item(id: u64, kind: Option<&str>, score: Option<u64>, descendants: Option<u64>) -> HNItem {
    HNItem {
        id,
        deleted: None,
        kind: kind.map(|k| k.to_string()),
        by: None,
        time: None,
        text: None,
        dead: None,
        parent: None,
        kids: None,
        url: None,
        score,
        title: None,
        descendants,
    }
}

fn story(id: u64, score: u64, comments: u64) -> HNItem {
    let mut it = item(id, Some("story"), Some(score), Some(comments));
    it.title = Some(format!("Story {}", id));
    it
}

struct RunReport {
    notified: Vec<HNItem>,
    looked_up: Vec<u64>,
    most_in_flight: usize,
}

/// Drives one run: answers are given back in the order the lookups started.
fn run(top: &Vec<u64>, marked: &mut DedupSet, resolve: &dyn Fn(u64) -> Option<HNItem>) -> RunReport {
    let mut res = Resolution::start(top, marked);
    let mut looked_up = Vec::new();
    let mut outstanding: Vec<u64> = Vec::new();
    let mut most_in_flight = 0;
    while !res.is_finished() {
        while let Some(id) = res.next_request() {
            looked_up.push(id);
            outstanding.push(id);
        }
        most_in_flight = most_in_flight.max(res.in_flight_count());
        let id = outstanding.remove(0);
        assert!(res.complete(id, resolve(id)));
    }
    let notified = res.finish(marked);
    RunReport { notified, looked_up, most_in_flight }
}

fn sorted_ids(set: &DedupSet) -> Vec<u64> {
    let mut ids = set.to_ids();
    ids.sort();
    ids
}

fn scenario_feed(id: u64) -> Option<HNItem> {
    if id == 3 || id == 7 {
        Some(story(id, 250, 5))
    } else {
        Some(story(id, 10, 5))
    }
}

#[test]
fn notable_needs_more_than_threshold() {
    assert!(!item(1, Some("story"), Some(200), Some(200)).selected());
    assert!(item(1, Some("story"), Some(201), Some(0)).selected());
    assert!(item(1, Some("story"), Some(0), Some(201)).selected());
    assert!(item(1, Some("story"), Some(201), Some(201)).selected());
    assert!(!item(1, None, None, None).selected());
    assert!(item(1, None, None, Some(5000)).selected());
}

#[test]
fn story_line_with_all_fields() {
    let mut it = story(8863, 111, 71);
    it.title = Some("My YC app: Dropbox".to_string());
    it.url = Some("http://www.getdropbox.com/u/2/screencast.html".to_string());
    assert_eq!(
        it.format_story().unwrap(),
        "My YC app: Dropbox http://www.getdropbox.com/u/2/screencast.html (111 votes, 71 comments)"
    );
}

#[test]
fn story_line_defaults() {
    let it = item(123, Some("story"), None, None);
    assert_eq!(
        it.format_story().unwrap(),
        " https://news.ycombinator.com/item?id=123 (0 votes, 0 comments)"
    );
}

#[test]
fn story_line_large_numbers() {
    let it = item(u64::MAX, Some("story"), Some(1000000), Some(10));
    assert_eq!(
        it.format_story().unwrap(),
        " https://news.ycombinator.com/item?id=18446744073709551615 (1000000 votes, 10 comments)"
    );
}

#[test]
fn non_story_is_refused() {
    assert_eq!(item(1, Some("comment"), Some(300), None).format_story(), Err(StoryError::NotAStory));
    assert_eq!(item(1, None, Some(300), None).format_story(), Err(StoryError::NotAStory));
    assert_eq!(item(1, Some("Story"), Some(300), None).format_story(), Err(StoryError::NotAStory));
}

#[test]
fn url_prefers_supplied_link() {
    let mut it = item(0, Some("story"), None, None);
    assert_eq!(it.url(), "https://news.ycombinator.com/item?id=0");
    it.url = Some("https://example.org/a".to_string());
    assert_eq!(it.url(), "https://example.org/a");
}

#[test]
fn dedup_set_insert_is_idempotent() {
    let mut set = DedupSet::new();
    assert_eq!(set.len(), 0);
    set.insert(5);
    set.insert(9);
    set.insert(5);
    assert_eq!(set.len(), 2);
    assert!(set.contains(5));
    assert!(set.contains(9));
    assert!(!set.contains(6));
    set.extend(&vec![9, 1, 1]);
    assert_eq!(set.to_ids(), vec![5, 9, 1]);
}

#[test]
fn dedup_set_json_text() {
    let set = DedupSet::from_ids(&vec![3, 1, 3, 2]);
    assert_eq!(set.to_json(), "[3,1,2]");
    assert_eq!(DedupSet::new().to_json(), "[]");
}

#[test]
fn store_then_load_gives_same_set() {
    let set = DedupSet::from_ids(&vec![18446744073709551615, 0, 42]);
    let text = set.to_json();
    let (back, warning) = DedupSet::load(CacheRead::Text(text));
    assert_eq!(warning, None);
    assert_eq!(sorted_ids(&back), vec![0, 42, 18446744073709551615]);
}

#[test]
fn load_never_fails() {
    let (set, warning) = DedupSet::load(CacheRead::Absent);
    assert_eq!((set.len(), warning), (0, None));
    let (set, warning) = DedupSet::load(CacheRead::Unreadable);
    assert_eq!((set.len(), warning), (0, Some(LoadWarning::Unreadable)));
    let (set, warning) = DedupSet::load(CacheRead::Text("{not json".to_string()));
    assert_eq!((set.len(), warning), (0, Some(LoadWarning::Corrupt)));
    let (set, warning) = DedupSet::load(CacheRead::Text("[-1]".to_string()));
    assert_eq!((set.len(), warning), (0, Some(LoadWarning::Corrupt)));
    let (set, warning) = DedupSet::load(CacheRead::Text(" [7, 7, 2] ".to_string()));
    assert_eq!(warning, None);
    assert_eq!(sorted_ids(&set), vec![2, 7]);
}

#[test]
fn candidates_take_first_ten_unmarked() {
    let top: Vec<u64> = (1..=12).collect();
    let marked = DedupSet::from_ids(&vec![2, 4, 11]);
    let mut c = candidates(&top, &marked);
    c.sort();
    assert_eq!(c, vec![1, 3, 5, 6, 7, 8, 9, 10]);
}

#[test]
fn candidates_drop_repeats() {
    let top = vec![4, 4, 1, 4];
    let mut c = candidates(&top, &DedupSet::new());
    c.sort();
    assert_eq!(c, vec![1, 4]);
    assert!(candidates(&vec![], &DedupSet::new()).is_empty());
}

#[test]
fn at_most_eight_lookups_outstanding() {
    let top: Vec<u64> = (1..=10).collect();
    let mut res = Resolution::start(&top, &DedupSet::new());
    let mut started = Vec::new();
    while let Some(id) = res.next_request() {
        started.push(id);
    }
    assert_eq!(started.len(), MAX_IN_FLIGHT);
    assert_eq!(res.in_flight_count(), 8);
    assert_eq!(res.next_request(), None);
    assert!(res.complete(started[0], None));
    assert_eq!(res.in_flight_count(), 7);
    assert!(res.next_request().is_some());
    assert_eq!(res.next_request(), None);
    assert_eq!(res.in_flight_count(), 8);
}

#[test]
fn answers_for_unknown_lookups_are_ignored() {
    let mut res = Resolution::start(&vec![1, 2], &DedupSet::new());
    assert!(!res.complete(1, Some(story(1, 500, 0))));
    let id = res.next_request().unwrap();
    assert!(res.complete(id, Some(story(id, 500, 0))));
    assert!(!res.complete(id, Some(story(id, 500, 0))));
}

#[test]
fn mismatched_answer_counts_as_failure() {
    let mut marked = DedupSet::new();
    let report = run(&vec![1], &mut marked, &|_| Some(story(99, 500, 0)));
    assert!(report.notified.is_empty());
    assert_eq!(marked.len(), 0);
}

#[test]
fn scenario_first_run_notifies_notable_in_order() {
    let top: Vec<u64> = (1..=10).collect();
    let mut marked = DedupSet::new();
    let report = run(&top, &mut marked, &scenario_feed);
    let ids: Vec<u64> = report.notified.iter().map(|i| i.id).collect();
    assert_eq!(ids, vec![3, 7]);
    assert_eq!(sorted_ids(&marked), (1..=10).collect::<Vec<u64>>());
    assert!(report.most_in_flight <= 8);
    assert_eq!(report.most_in_flight, 8);
    assert_eq!(
        report.notified[0].format_story().unwrap(),
        "Story 3 https://news.ycombinator.com/item?id=3 (250 votes, 5 comments)"
    );
}

#[test]
fn scenario_second_run_does_nothing() {
    let top: Vec<u64> = (1..=10).collect();
    let mut marked = DedupSet::new();
    run(&top, &mut marked, &scenario_feed);
    let report = run(&top, &mut marked, &scenario_feed);
    assert!(report.notified.is_empty());
    assert!(report.looked_up.is_empty());
    assert_eq!(sorted_ids(&marked), (1..=10).collect::<Vec<u64>>());
}

#[test]
fn scenario_failed_lookup_is_retried() {
    let mut marked = DedupSet::new();
    let report = run(&vec![5], &mut marked, &|_| None);
    assert!(report.notified.is_empty());
    assert_eq!(marked.len(), 0);
    let report = run(&vec![5], &mut marked, &|id| Some(story(id, 300, 0)));
    assert_eq!(report.looked_up, vec![5]);
    assert_eq!(report.notified.len(), 1);
    assert!(marked.contains(5));
}

#[test]
fn failed_lookup_does_not_block_others() {
    let mut marked = DedupSet::from_ids(&vec![100]);
    let report = run(&vec![1, 2, 100], &mut marked, &|id| {
        if id == 1 {
            None
        } else {
            Some(story(id, 10, 900))
        }
    });
    let ids: Vec<u64> = report.notified.iter().map(|i| i.id).collect();
    assert_eq!(ids, vec![2]);
    assert!(!marked.contains(1));
    assert_eq!(sorted_ids(&marked), vec![2, 100]);
    assert!(!report.looked_up.contains(&100));
}

#[test]
fn not_notable_items_are_still_handled() {
    let mut marked = DedupSet::new();
    let report = run(&vec![9, 8], &mut marked, &|id| Some(story(id, 1, 1)));
    assert!(report.notified.is_empty());
    assert_eq!(sorted_ids(&marked), vec![8, 9]);
}

#[test]
fn notified_items_come_in_ascending_order() {
    let mut marked = DedupSet::new();
    let top = vec![40, 10, 30, 20, 50];
    let report = run(&top, &mut marked, &|id| Some(story(id, 201, 0)));
    let ids: Vec<u64> = report.notified.iter().map(|i| i.id).collect();
    assert_eq!(ids, vec![10, 20, 30, 40, 50]);
}

#[test]
fn notable_non_stories_are_handled_not_notified() {
    let mut marked = DedupSet::new();
    let report = run(&vec![1, 2, 3], &mut marked, &|id| {
        if id == 2 {
            Some(story(id, 900, 0))
        } else {
            Some(item(id, Some("poll"), Some(900), Some(900)))
        }
    });
    let ids: Vec<u64> = report.notified.iter().map(|i| i.id).collect();
    assert_eq!(ids, vec![2]);
    assert_eq!(sorted_ids(&marked), vec![1, 2, 3]);
}
