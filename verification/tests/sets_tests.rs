use routesets::date::Date;
use routesets::problem::ProblemData;
use routesets::sets::{get_sets, group_into_sets};
use routesets::store::StoreError;

fn route(date: &str, grade: u8, setter: &str, likes: u32, image: &str) -> ProblemData {
    ProblemData {
        image: String::from(image),
        grade,
        setter: String::from(setter),
        likes,
        date: String::from(date),
    }
}

#[test]
fn empty_input_gives_no_sets() {
    let sets = group_into_sets(vec![]);
    assert_eq!(sets.len(), 0);
}

#[test]
fn three_records_group_into_two_sets() {
    let a = route("1/6/2024", 5, "A", 0, "x");
    let b = route("1/6/2024", 6, "B", 2, "y");
    let c = route("2/6/2024", 3, "C", 0, "z");
    let sets = group_into_sets(vec![a.clone(), b.clone(), c.clone()]);
    assert_eq!(sets.len(), 2);
    let first = sets.iter().find(|s| s.date == Date::new(1, 6, 2024)).unwrap();
    let second = sets.iter().find(|s| s.date == Date::new(2, 6, 2024)).unwrap();
    assert_eq!(first.problems().len(), 2);
    assert_eq!(first.problems()[0], a);
    assert_eq!(first.problems()[1], b);
    assert_eq!(second.problems().len(), 1);
    assert_eq!(second.problems()[0], c);
}

#[test]
fn identical_date_strings_share_one_set() {
    let a = route("3/7/2023", 4, "A", 0, "x");
    let b = route("3/7/2023", 7, "B", 1, "y");
    let sets = group_into_sets(vec![a.clone(), b.clone()]);
    assert_eq!(sets.len(), 1);
    assert_eq!(sets[0].problems(), &vec![a, b]);
}

#[test]
fn different_date_strings_get_different_sets() {
    let a = route("3/7/2023", 4, "A", 0, "x");
    let b = route("4/7/2023", 7, "B", 1, "y");
    let sets = group_into_sets(vec![a, b]);
    assert_eq!(sets.len(), 2);
}

#[test]
fn textually_different_dates_stay_apart_even_when_they_parse_alike() {
    // "01/6/2024" and "1/6/2024" parse to the same calendar date but are
    // different raw strings, so they key different sets.
    let a = route("01/6/2024", 4, "A", 0, "x");
    let b = route("1/6/2024", 7, "B", 1, "y");
    let sets = group_into_sets(vec![a, b]);
    assert_eq!(sets.len(), 2);
    assert_eq!(sets[0].date, sets[1].date);
}

#[test]
fn grouping_is_a_partition_of_the_input() {
    let input = vec![
        route("1/1/2024", 1, "A", 0, "a"),
        route("2/1/2024", 2, "B", 0, "b"),
        route("1/1/2024", 3, "C", 0, "c"),
        route("3/1/2024", 4, "D", 0, "d"),
        route("2/1/2024", 5, "E", 0, "e"),
    ];
    let sets = group_into_sets(input.clone());
    let total: usize = sets.iter().map(|s| s.problems().len()).sum();
    assert_eq!(total, input.len());
    for p in &input {
        let holders: usize =
            sets.iter().filter(|s| s.problems().iter().any(|q| q == p)).count();
        assert_eq!(holders, 1);
    }
}

#[test]
fn malformed_dates_share_the_zero_date_set() {
    let a = route("", 1, "A", 0, "a");
    let b = route("abc", 2, "B", 0, "b");
    let sets = group_into_sets(vec![a, b]);
    // The raw strings differ, so they form two sets, both under the
    // zero-date sentinel.
    assert_eq!(sets.len(), 2);
    assert_eq!(sets[0].date, Date::new(0, 0, 0));
    assert_eq!(sets[1].date, Date::new(0, 0, 0));
}

#[test]
fn get_sets_groups_a_successful_read() {
    let a = route("1/6/2024", 5, "A", 0, "x");
    let sets = get_sets(Ok(vec![a.clone()]));
    assert_eq!(sets.len(), 1);
    assert_eq!(sets[0].date, Date::new(1, 6, 2024));
    assert_eq!(sets[0].problems(), &vec![a]);
}

#[test]
fn get_sets_swallows_every_store_failure() {
    for err in [
        StoreError::StoreUnavailable,
        StoreError::SchemaInitFailed,
        StoreError::QueryFailed,
        StoreError::RowDecodeFailed,
    ] {
        let sets = get_sets(Err(err));
        assert_eq!(sets.len(), 0);
    }
}
