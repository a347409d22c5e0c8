use router_sandbox::ieee::Real64;
use router_sandbox::table::Table;
use router_sandbox::text::is_text_before;
use router_sandbox::worker::WorkerWithDpRank;

fn bits_of(value: f64) -> Real64 {
    Real64 {
        bits: value.to_bits(),
    }
}

#[test]
fn numbers_compare_as_floating_point_does() {
    let values = [
        f64::NEG_INFINITY,
        -2.5,
        -0.0,
        0.0,
        f64::MIN_POSITIVE,
        1.0,
        2.5,
        f64::MAX,
        f64::INFINITY,
        f64::NAN,
        -f64::NAN,
    ];
    for a in values {
        assert_eq!(bits_of(a).is_finite(), a.is_finite());
        for b in values {
            assert_eq!(bits_of(a).lt(&bits_of(b)), a < b);
            assert_eq!(bits_of(a).le(&bits_of(b)), a <= b);
            assert_eq!(bits_of(a).same(&bits_of(b)), a == b);
            assert_eq!(
                bits_of(a).total_lt(&bits_of(b)),
                a.total_cmp(&b).is_lt()
            );
        }
    }
}

#[test]
fn texts_compare_as_strings_do() {
    let texts = ["", "a", "ab", "b", "session-1", "session-10", "session-2"];
    for a in texts {
        for b in texts {
            assert_eq!(is_text_before(a, b), a < b);
        }
    }
}

#[test]
fn workers_are_ordered_by_id_and_rank() {
    let low = WorkerWithDpRank::new(1, 1);
    let high = WorkerWithDpRank::new(2, 0);
    assert!(low.before(&high));
    assert!(!high.before(&low));
    assert!(WorkerWithDpRank::new(1, 0).before(&low));
    assert!(!low.before(&low));
    assert_eq!(
        WorkerWithDpRank::from_worker_id(3),
        WorkerWithDpRank::new(3, 0)
    );
}

#[test]
fn a_table_finds_what_was_put_in() {
    let mut table: Table<usize> = Table::new();
    table.insert("a".to_owned(), 1);
    table.insert("b".to_owned(), 2);
    table.insert("c".to_owned(), 3);
    table.insert("b".to_owned(), 4);
    assert_eq!(table.len(), 3);
    assert_eq!(table.get("b"), Some(&4));
    assert_eq!(table.remove("a"), Some(1));
    assert_eq!(table.remove("a"), None);
    assert_eq!(table.get("c"), Some(&3));
    assert!(!table.contains_key("a"));
    assert_eq!(table.len(), 2);
}
