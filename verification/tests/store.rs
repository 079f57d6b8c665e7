#![allow(unused_mut)]

use market_aggregator::aws::{target_of, Target};
use market_aggregator::counters::ArchiveCounters;
use market_aggregator::store::{listing, LocalStore, StoreError};

#[test]
fn listing_is_sorted_and_prefix_filtered() {
    let found = [
        "events/date=2026-08-09/hour=04/part-00000.parquet",
        "events/date=2026-08-09/hour=03/part-00000.parquet",
        "events/date=2026-08-10/hour=00/part-00000.parquet",
        "other/thing.txt",
    ]
    .map(str::to_owned);
    assert_eq!(
        listing(&found, "events/"),
        [
            "events/date=2026-08-09/hour=03/part-00000.parquet",
            "events/date=2026-08-09/hour=04/part-00000.parquet",
            "events/date=2026-08-10/hour=00/part-00000.parquet",
        ],
        "listing was not chronological, or leaked a key outside the prefix"
    );
}

#[test]
fn listing_an_empty_store_is_not_an_error() {
    assert!(listing(&[], "events/").is_empty());
}

#[test]
fn keys_cannot_escape_the_store_root() {
    let store = LocalStore::new("/srv/root");
    for bad in ["../outside", "a/../../outside", "/etc/passwd", ""] {
        let err = store.resolve(bad).unwrap_err();
        assert!(
            matches!(err, StoreError::Rejected { .. }),
            "{bad:?} was accepted: {err:?}"
        );
    }
    assert_eq!(
        store.resolve("events/part-00000.parquet").unwrap(),
        "/srv/root/events/part-00000.parquet"
    );
}

#[test]
fn a_partially_written_file_is_never_listed() {
    let found = ["events/part-00000.parquet", "events/part-00001.partial"].map(str::to_owned);
    assert_eq!(listing(&found, "events/"), ["events/part-00000.parquet"]);
}

#[test]
fn a_plain_path_is_a_local_store() {
    match target_of("/tmp/market-data") {
        Target::Directory(root) => {
            assert_eq!(LocalStore::new(&root).describe(), "local:/tmp/market-data");
        }
        Target::Bucket(b) => panic!("a path read as bucket {b}"),
    }
}

#[test]
fn store_errors_read_in_words() {
    let io = StoreError::Io {
        key: "k".to_owned(),
        source: "gone".to_owned(),
    };
    assert_eq!(io.message(), "i/o error at k: gone");
    let rejected = StoreError::Rejected {
        key: "k".to_owned(),
        message: "no".to_owned(),
    };
    assert_eq!(rejected.message(), "object store rejected k: no");
    assert_eq!(StoreError::Config("bad".to_owned()).message(), "bad");
}

#[test]
fn archive_counters_add_up() {
    let mut c = ArchiveCounters::default();
    c.record_file(10, 2_000);
    c.record_file(5, 1_000);
    c.record_failure();
    c.set_open_files(3);
    assert_eq!(c.rows_written(), 15);
    assert_eq!(c.files_written(), 2);
    assert_eq!(c.bytes_written(), 3_000);
    assert_eq!(c.write_failures(), 1);
    assert_eq!(c.open_files(), 3);
}
