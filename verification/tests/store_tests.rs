use routesets::problem::ProblemData;
use routesets::store::{add_problem, add_problem_from_string, create_table_query, insert_statement, StoreError};

#[test]
fn add_problem_discards_the_submitted_likes() {
    let submitted = ProblemData {
        image: String::from("x"),
        grade: 5,
        setter: String::from("A"),
        likes: 42,
        date: String::from("1/6/2024"),
    };
    let (row, _query) = add_problem(submitted);
    assert_eq!(row.likes, 0);
}

#[test]
fn add_problem_stores_the_default_row() {
    let submitted = ProblemData {
        image: String::from("x"),
        grade: 5,
        setter: String::from("A"),
        likes: 42,
        date: String::from("1/6/2024"),
    };
    let (row, query) = add_problem(submitted);
    assert_eq!(row, ProblemData::default());
    assert_eq!(query, "INSERT INTO problems (image, grade, setter, likes, date) VALUES (?, ?, ?, ?, ?)");
}

#[test]
fn default_row_has_placeholder_fields() {
    let row = ProblemData::default();
    assert_eq!(row.image, "false");
    assert_eq!(row.grade, 0);
    assert_eq!(row.setter, "Unknown");
    assert_eq!(row.likes, 0);
    assert_eq!(row.date, "");
}

#[test]
fn insert_statement_binds_one_parameter_per_column() {
    let q = insert_statement();
    assert_eq!(q, "INSERT INTO problems (image, grade, setter, likes, date) VALUES (?, ?, ?, ?, ?)");
    assert_eq!(q.matches('?').count(), 5);
}

#[test]
fn create_table_query_is_idempotent_sql() {
    let q = create_table_query();
    assert!(q.starts_with("CREATE TABLE IF NOT EXISTS problems"));
    assert!(q.contains("image bool"));
    assert!(q.contains("grade int"));
    assert!(q.contains("setter text"));
    assert!(q.contains("likes int"));
    assert!(q.contains("date text"));
}

#[test]
fn form_fields_become_a_record_with_zero_likes() {
    let r = add_problem_from_string(
        String::from("pic"),
        String::from("7"),
        String::from("Sam"),
        String::from("1/6/2024"),
    )
    .unwrap();
    assert_eq!(r.image, "pic");
    assert_eq!(r.grade, 7);
    assert_eq!(r.setter, "Sam");
    assert_eq!(r.likes, 0);
    assert_eq!(r.date, "1/6/2024");
}

#[test]
fn non_numeric_grade_is_a_parse_error() {
    let r = add_problem_from_string(
        String::from("pic"),
        String::from("hard"),
        String::from("Sam"),
        String::from("1/6/2024"),
    );
    assert_eq!(r, Err(StoreError::ParseError));
}

#[test]
fn empty_grade_is_a_parse_error() {
    let r = add_problem_from_string(
        String::from("pic"),
        String::from(""),
        String::from("Sam"),
        String::from("1/6/2024"),
    );
    assert_eq!(r, Err(StoreError::ParseError));
}

#[test]
fn oversized_grade_is_a_parse_error() {
    let r = add_problem_from_string(
        String::from("pic"),
        String::from("300"),
        String::from("Sam"),
        String::from("1/6/2024"),
    );
    assert_eq!(r, Err(StoreError::ParseError));
}

#[test]
fn get_date_returns_the_raw_date_string() {
    let row = ProblemData {
        image: String::from("x"),
        grade: 1,
        setter: String::from("A"),
        likes: 0,
        date: String::from("9/9/2029"),
    };
    assert_eq!(row.get_date(), "9/9/2029");
}

#[test]
fn records_compare_by_all_fields() {
    let a = ProblemData {
        image: String::from("x"),
        grade: 1,
        setter: String::from("A"),
        likes: 0,
        date: String::from("9/9/2029"),
    };
    let mut b = a.clone();
    assert_eq!(a, b);
    b.likes = 1;
    assert_ne!(a, b);
}

#[test]
fn plus_signed_grade_parses_like_std() {
    let r = add_problem_from_string(
        String::from("pic"),
        String::from("+5"),
        String::from("Sam"),
        String::from("1/6/2024"),
    )
    .unwrap();
    assert_eq!(r.grade, 5);
}

#[test]
fn lone_or_repeated_sign_is_a_parse_error() {
    for grade in ["+", "++5", "-5"] {
        let r = add_problem_from_string(
            String::from("pic"),
            String::from(grade),
            String::from("Sam"),
            String::from("1/6/2024"),
        );
        assert_eq!(r, Err(StoreError::ParseError));
    }
}
