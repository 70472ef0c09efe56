use shitview::storage::{synthetic_row, StorageBenchmark};
use std::time::Duration;

fn bench(page_count: i64, page_size: i64) -> StorageBenchmark {
    StorageBenchmark {
        rows: 1,
        insert_elapsed: Duration::from_millis(3),
        count_elapsed: Duration::from_micros(5),
        page_count,
        page_size,
    }
}

#[test]
fn database_size_is_pages_times_page_size() {
    assert_eq!(bench(10, 4096).sqlite_bytes(), 40_960);
    assert_eq!(bench(0, 4096).sqlite_bytes(), 0);
}

#[test]
fn database_size_saturates() {
    assert_eq!(bench(i64::MAX, 2).sqlite_bytes(), i64::MAX);
    assert_eq!(bench(i64::MIN, 2).sqlite_bytes(), i64::MIN);
    assert_eq!(bench(-5, -7).sqlite_bytes(), 35);
}

#[test]
fn synthetic_rows_follow_the_benchmark_shape() {
    let first = synthetic_row(0);
    assert_eq!((first.id, first.parent_id, first.kind, first.depth, first.size_bytes), (1, None, 1, 0, 0));
    assert_eq!(first.path, "H:/synthetic/module_0000/node_000000000");
    assert_eq!(first.name, "node_000000000");
    assert_eq!(first.modified_ns, 1_786_280_000_000_000_000);
    let row = synthetic_row(12_345);
    assert_eq!(row.id, 12_346);
    assert_eq!(row.parent_id, Some(12_344 / 64 + 1));
    assert_eq!(row.path, "H:/synthetic/module_0001/node_000012345");
    assert_eq!((row.kind, row.depth), (2, 2));
    assert_eq!(synthetic_row(64).kind, 1);
    assert_eq!(synthetic_row(1_048_577).size_bytes, 1);
}
