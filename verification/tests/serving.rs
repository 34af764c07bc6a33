use banner_rotator::storage::has_show;
use banner_rotator::storage::next_shows_left;
use banner_rotator::storage::Banner;
use banner_rotator::storage::FilterResult;
use banner_rotator::storage::InMemoryStorage;
use banner_rotator::storage::Storage;
use banner_rotator::storage::StoreError;

fn cats(names: &[&str]) -> Vec<String> {
    names.iter().map(|s| s.to_string()).collect()
}

fn page_of(url: &str) -> String {
    format!("<html><body><img src=\"{}\"/></body></html>", url)
}

#[test]
fn banner_page_wraps_the_url() {
    let banner = Banner::new("http://a/1.jpg".to_string(), 1);
    assert_eq!(banner.html(), "<html><body><img src=\"http://a/1.jpg\"/></body></html>");
    assert_eq!(
        banner.show_html(),
        Some("<html><body><img src=\"http://a/1.jpg\"/></body></html>".to_string())
    );
}

#[test]
fn banner_url_is_not_escaped() {
    let url = "http://a/?q=\"<x>\"&r='y'";
    let banner = Banner::new(url.to_string(), 1);
    assert_eq!(banner.show_html(), Some(page_of(url)));
}

#[test]
fn banner_budget_is_counted_down() {
    let banner = Banner::new("u".to_string(), 3);
    assert_eq!(banner.shows_amount(), 3);
    for _ in 0..3 {
        assert!(banner.can_show());
        assert_eq!(banner.show_html(), Some(page_of("u")));
    }
    assert!(!banner.can_show());
    assert_eq!(banner.show_html(), None);
    assert_eq!(banner.show_html(), None);
    assert_eq!(banner.shows_amount(), 3);
}

#[test]
fn banner_without_budget_shows_nothing() {
    let banner = Banner::new("u".to_string(), 0);
    assert!(!banner.can_show());
    assert_eq!(banner.show_html(), None);
}

#[test]
fn shown_follows_the_counter() {
    let banner = Banner::new("u".to_string(), 3);
    assert_eq!(banner.shown(Ok(3)), Some(page_of("u")));
    assert_eq!(banner.shown(Err(0)), None);
}

#[test]
fn a_counter_above_zero_has_a_show() {
    assert!(!has_show(0));
    assert!(has_show(1));
    assert!(has_show(u32::MAX));
}

#[test]
fn next_shows_left_takes_one_while_any_is_left() {
    assert_eq!(next_shows_left(0), None);
    assert_eq!(next_shows_left(1), Some(0));
    assert_eq!(next_shows_left(u32::MAX), Some(u32::MAX - 1));
}

#[test]
fn error_messages() {
    assert_eq!(StoreError::IllegalUrl.describe(), "Illegal URL");
    assert_eq!(StoreError::IllegalShowsAmount.describe(), "Shows amount must be positive");
    assert_eq!(
        StoreError::EmptyCategories.describe(),
        "Banner must have at least one category"
    );
}

#[test]
fn refused_records_leave_the_inventory_unchanged() {
    let mut storage = InMemoryStorage::new();
    storage.add_banner("url".to_string(), 1, cats(&["a"])).unwrap();
    assert_eq!(storage.banner_count(), 1);
    assert_eq!(storage.category_count(), 1);

    assert_eq!(storage.add_banner("".to_string(), 1, cats(&["b"])), Err(StoreError::IllegalUrl));
    assert_eq!(
        storage.add_banner("x".to_string(), 0, cats(&["b"])),
        Err(StoreError::IllegalShowsAmount)
    );
    assert_eq!(storage.add_banner("x".to_string(), 1, vec![]), Err(StoreError::EmptyCategories));
    assert_eq!(storage.banner_count(), 1);
    assert_eq!(storage.category_count(), 1);
    assert_eq!(storage.get_banner_html(cats(&["b"])), None);
}

#[test]
fn the_first_broken_rule_is_reported() {
    let mut storage = InMemoryStorage::new();
    assert_eq!(storage.add_banner("".to_string(), 0, vec![]), Err(StoreError::IllegalUrl));
    assert_eq!(
        storage.add_banner("x".to_string(), 0, vec![]),
        Err(StoreError::IllegalShowsAmount)
    );
}

#[test]
fn loading_goes_on_after_a_refused_record() {
    let mut storage = InMemoryStorage::new();
    assert_eq!(storage.add_banner("".to_string(), 1, cats(&["a"])), Err(StoreError::IllegalUrl));
    assert_eq!(storage.add_banner("u".to_string(), 1, cats(&["a"])), Ok(()));
    assert_eq!(storage.banner_count(), 1);
    assert_eq!(storage.get_banner_html(cats(&["a"])), Some(page_of("u")));
}

#[test]
fn counts_follow_the_loaded_records() {
    let mut storage = InMemoryStorage::new();
    assert_eq!(storage.banner_count(), 0);
    assert_eq!(storage.category_count(), 0);
    storage.add_banner("u1".to_string(), 1, cats(&["a", "b"])).unwrap();
    storage.add_banner("u2".to_string(), 1, cats(&["b", "c", "b"])).unwrap();
    assert_eq!(storage.banner_count(), 2);
    assert_eq!(storage.category_count(), 3);
}

#[test]
fn a_budget_of_n_answers_n_requests() {
    let mut storage = InMemoryStorage::new();
    storage.add_banner("u".to_string(), 5, cats(&["a", "b"])).unwrap();
    storage.add_banner("other".to_string(), 2, cats(&["c"])).unwrap();
    for _ in 0..5 {
        assert_eq!(storage.get_banner_html(cats(&["a"])), Some(page_of("u")));
    }
    assert_eq!(storage.get_banner_html(cats(&["a"])), None);
    assert_eq!(storage.get_banner_html(cats(&["b"])), None);
    assert_eq!(storage.get_banner_html(cats(&["c"])), Some(page_of("other")));
}

#[test]
fn budgets_of_two_categories() {
    let mut storage = InMemoryStorage::new();
    storage.add_banner("http://a/1.jpg".to_string(), 2, cats(&["x"])).unwrap();
    storage.add_banner("http://b/1.jpg".to_string(), 1, cats(&["y"])).unwrap();

    assert!(storage.get_banner_html(cats(&["x"])).unwrap().contains("http://a/1.jpg"));
    assert!(storage.get_banner_html(cats(&["x"])).unwrap().contains("http://a/1.jpg"));
    assert_eq!(storage.get_banner_html(cats(&["x"])), None);
    assert!(storage.get_banner_html(cats(&["y"])).unwrap().contains("http://b/1.jpg"));
    assert_eq!(storage.get_banner_html(cats(&["y"])), None);
}

#[test]
fn two_banners_of_one_category() {
    let mut storage = InMemoryStorage::new();
    storage.add_banner("first".to_string(), 1, cats(&["z"])).unwrap();
    storage.add_banner("second".to_string(), 1, cats(&["z"])).unwrap();

    let one = storage.get_banner_html(cats(&["z"])).unwrap();
    let two = storage.get_banner_html(cats(&["z"])).unwrap();
    assert_ne!(one, two);
    assert!(one == page_of("first") || one == page_of("second"));
    assert!(two == page_of("first") || two == page_of("second"));
    assert_eq!(storage.get_banner_html(cats(&["z"])), None);
}

#[test]
fn a_category_named_twice_counts_once() {
    let mut storage = InMemoryStorage::new();
    storage.add_banner("u".to_string(), 2, cats(&["a", "a"])).unwrap();
    assert_eq!(storage.tagged_positions(&cats(&["a", "a"])), vec![0]);
    assert_eq!(storage.get_banner_html(cats(&["a"])), Some(page_of("u")));
    assert_eq!(storage.get_banner_html(cats(&["a", "a"])), Some(page_of("u")));
    assert_eq!(storage.get_banner_html(cats(&["a"])), None);
}

#[test]
fn only_banners_of_the_categories_are_served() {
    let mut storage = InMemoryStorage::new();
    storage.add_banner("in1".to_string(), 50, cats(&["a"])).unwrap();
    storage.add_banner("out".to_string(), 1000, cats(&["b"])).unwrap();
    storage.add_banner("in2".to_string(), 50, cats(&["c", "a"])).unwrap();
    let mut first = 0;
    let mut second = 0;
    for _ in 0..100 {
        let page = storage.get_banner_html(cats(&["a", "unknown"])).unwrap();
        if page == page_of("in1") {
            first += 1;
        } else {
            assert_eq!(page, page_of("in2"));
            second += 1;
        }
    }
    assert_eq!(first, 50);
    assert_eq!(second, 50);
    assert_eq!(storage.get_banner_html(cats(&["a"])), None);
    assert_eq!(storage.get_banner_html(cats(&["b"])), Some(page_of("out")));
}

#[test]
fn tagged_positions_are_ascending_and_distinct() {
    let mut storage = InMemoryStorage::new();
    storage.add_banner("u0".to_string(), 1, cats(&["a", "b"])).unwrap();
    storage.add_banner("u1".to_string(), 1, cats(&["c"])).unwrap();
    storage.add_banner("u2".to_string(), 1, cats(&["b"])).unwrap();
    storage.add_banner("u3".to_string(), 1, cats(&["a"])).unwrap();
    assert_eq!(storage.tagged_positions(&cats(&["a"])), vec![0, 3]);
    assert_eq!(storage.tagged_positions(&cats(&["b"])), vec![0, 2]);
    assert_eq!(storage.tagged_positions(&cats(&["b", "a"])), vec![0, 2, 3]);
    assert_eq!(storage.tagged_positions(&cats(&["c", "a", "nothing"])), vec![0, 1, 3]);
    assert_eq!(storage.tagged_positions(&cats(&["nothing"])), Vec::<usize>::new());
    assert_eq!(storage.tagged_positions(&vec![]), Vec::<usize>::new());
}

#[test]
fn filter_drops_exhausted_banners() {
    let mut storage = InMemoryStorage::new();
    storage.add_banner("u0".to_string(), 1, cats(&["a"])).unwrap();
    storage.add_banner("u1".to_string(), 1, cats(&["b"])).unwrap();
    storage.add_banner("u2".to_string(), 1, cats(&["a"])).unwrap();
    assert!(matches!(storage.filter_by_categories(&vec![]), FilterResult::All));
    match storage.filter_by_categories(&cats(&["a"])) {
        FilterResult::Slice { indexes } => assert_eq!(indexes, vec![0, 2]),
        FilterResult::All => panic!("categories were named"),
    }
    assert_eq!(storage.get_banner_html(cats(&["b"])), Some(page_of("u1")));
    match storage.filter_by_categories(&cats(&["a", "b"])) {
        FilterResult::Slice { indexes } => assert_eq!(indexes, vec![0, 2]),
        FilterResult::All => panic!("categories were named"),
    }
    assert_eq!(storage.availability(&vec![0, 1, 2]), vec![true, false, true]);
}

#[test]
fn table_of_candidates_weighs_by_budget() {
    let mut storage = InMemoryStorage::new();
    storage.add_banner("u0".to_string(), 4, cats(&["a"])).unwrap();
    storage.add_banner("u1".to_string(), 7, cats(&["a"])).unwrap();
    storage.add_banner("u2".to_string(), 2, cats(&["a"])).unwrap();
    let table = storage.get_cumulative_weights(&vec![0, 2]);
    assert_eq!(table.len(), 2);
    assert_eq!(table.total(), 6);
    assert_eq!(table.select_at(4), Some(0));
    assert_eq!(table.select_at(5), Some(2));
}

#[test]
fn weights_stay_the_declared_budgets() {
    let mut storage = InMemoryStorage::new();
    storage.add_banner("u0".to_string(), 3, cats(&["a"])).unwrap();
    storage.add_banner("u1".to_string(), 1, cats(&["a"])).unwrap();
    assert_eq!(storage.get_banner_html(cats(&["a"])).is_some(), true);
    let table = storage.get_cumulative_weights(&vec![0, 1]);
    assert_eq!(table.total(), 4);
}

#[test]
fn serving_any_banner_may_hit_an_exhausted_one() {
    let mut storage = InMemoryStorage::new();
    storage.add_banner("u0".to_string(), 1, cats(&["a"])).unwrap();
    storage.add_banner("u1".to_string(), 1, cats(&["b"])).unwrap();
    let mut pages = 0;
    for _ in 0..200 {
        if storage.get_banner_html(vec![]).is_some() {
            pages += 1;
        }
    }
    assert_eq!(pages, 2);
    assert_eq!(storage.get_banner_html(vec![]), None);
}

#[test]
fn selection_among_all_follows_the_budgets() {
    let mut storage = InMemoryStorage::new();
    storage.add_banner("light".to_string(), 100_000, cats(&["a"])).unwrap();
    storage.add_banner("heavy".to_string(), 300_000, cats(&["b"])).unwrap();
    let trials = 40_000;
    let mut light = 0;
    for _ in 0..trials {
        if storage.get_banner_html(vec![]) == Some(page_of("light")) {
            light += 1;
        }
    }
    let share = light as f64 / trials as f64;
    assert!(share > 0.22 && share < 0.28, "share of the light banner: {}", share);
}

#[test]
fn a_show_taken_after_the_filter_leaves_nothing() {
    let mut storage = InMemoryStorage::new();
    storage.add_banner("u".to_string(), 1, cats(&["a"])).unwrap();
    let indexes = match storage.filter_by_categories(&cats(&["a"])) {
        FilterResult::Slice { indexes } => indexes,
        FilterResult::All => panic!("categories were named"),
    };
    assert_eq!(indexes, vec![0]);
    let table = storage.get_cumulative_weights(&indexes);

    assert_eq!(storage.get_banner_html(cats(&["a"])), Some(page_of("u")));

    assert_eq!(storage.show_html(&table), None);
    assert_eq!(storage.show_html_select_all(), None);
}

#[test]
fn shows_never_exceed_the_budget() {
    let mut storage = InMemoryStorage::new();
    storage.add_banner("u0".to_string(), 3, cats(&["a", "b"])).unwrap();
    storage.add_banner("u1".to_string(), 2, cats(&["b"])).unwrap();
    let mut shows = [0, 0];
    for round in 0..30 {
        let asked = match round % 3 {
            0 => cats(&["a"]),
            1 => cats(&["b"]),
            _ => vec![],
        };
        match storage.get_banner_html(asked) {
            Some(page) if page == page_of("u0") => shows[0] += 1,
            Some(page) => {
                assert_eq!(page, page_of("u1"));
                shows[1] += 1;
            }
            None => {}
        }
        assert!(shows[0] <= 3);
        assert!(shows[1] <= 2);
    }
    assert_eq!(shows, [3, 2]);
}
