#![allow(unused_mut)]

use market_aggregator::aws::{
    check_interlock, denied_shape, into_store_error, target_of, verify_scope, AwsError, Probe,
    ScopedBucket, Target, ACK_VAR,
};
use market_aggregator::lease::RegistryError;
use market_aggregator::registry::into_registry_error;
use market_aggregator::store::StoreError;

#[test]
fn lib_a_bucket_without_a_prefix_is_refused() {
    let err = ScopedBucket::parse_uri("my-bucket").unwrap_err();
    assert!(err.message().contains("names no prefix"), "{err:?}");

    let err = ScopedBucket::parse_uri("my-bucket/").unwrap_err();
    assert!(
        err.message().contains("missing a bucket or a prefix"),
        "{err:?}"
    );

    assert_eq!(
        ScopedBucket::parse_uri("my-bucket/market-data/events").unwrap(),
        ("my-bucket".to_owned(), "market-data/events".to_owned())
    );
}

#[test]
fn a_denied_listing_is_the_only_shape_that_proves_scoping() {
    let denied = [
        "ServiceError { err: AccessDenied, .. }",
        "ServiceError { err: AllAccessDisabled, .. }",
        "response: Response { status: 403 }",
        "NoSuchBucket",
    ];
    for case in denied {
        assert!(
            denied_shape(case),
            "{case:?} should read as a denial, i.e. correctly scoped"
        );
    }

    let not_denied = [
        "DispatchFailure(ConnectorError { kind: Dns })",
        "TimeoutError",
        "ConstructionFailure",
    ];
    for case in not_denied {
        assert!(
            !denied_shape(case),
            "{case:?} is a connectivity failure and must not be read as proof of scoping"
        );
    }
}

#[test]
fn s3_is_refused_until_the_operator_asserts_the_iam_scoping() {
    for absent in [None, Some(""), Some("0"), Some("yes"), Some("true")] {
        let err = check_interlock(absent).unwrap_err();
        assert!(
            err.message().contains(ACK_VAR),
            "{absent:?} did not trip the interlock: {err:?}"
        );
    }
    assert!(check_interlock(Some("1")).is_ok());
}

#[test]
fn the_refusal_says_which_gate_asserts_and_which_one_tests() {
    let message = check_interlock(None).unwrap_err().message();
    assert!(
        message.contains("asserts the scoping"),
        "the error does not say the variable is an assertion: {message}"
    );
    assert!(
        message.contains("tests it"),
        "the error does not say anything actually checks it: {message}"
    );
}

#[test]
fn a_bucket_without_a_prefix_is_refused_through_this_layer_too() {
    let err = into_store_error(ScopedBucket::parse_uri("my-bucket").unwrap_err());
    assert!(matches!(err, StoreError::Config(_)), "{err:?}");
    assert!(err.message().contains("names no prefix"), "{err:?}");
}

#[test]
fn a_configuration_failure_stays_a_configuration_failure() {
    let config = into_store_error(AwsError::Config("nope".to_owned()));
    assert!(matches!(config, StoreError::Config(_)));

    let rejected = into_store_error(AwsError::Rejected {
        key: "events/x.parquet".to_owned(),
        message: "slow down".to_owned(),
    });
    assert!(matches!(rejected, StoreError::Rejected { .. }));
}

#[test]
fn s3_a_bucket_without_a_prefix_is_refused() {
    let err = into_registry_error(ScopedBucket::parse_uri("my-bucket").unwrap_err());
    assert!(err.message().contains("names no prefix"), "{err:?}");
}

#[test]
fn every_s3_failure_reads_as_an_incomplete_round_trip() {
    for e in [
        AwsError::Config("no credentials".to_owned()),
        AwsError::Rejected {
            key: "node-a.json".to_owned(),
            message: "slow down".to_owned(),
        },
    ] {
        assert!(matches!(into_registry_error(e), RegistryError::Io(_)));
    }
}

#[test]
fn only_a_denied_probe_proves_the_scope() {
    let denied = Probe::Failed("ServiceError { err: AccessDenied, .. }".to_owned());
    assert!(verify_scope("bucket", "events", &denied).is_ok());

    let wide = verify_scope("bucket", "events", &Probe::Listed).unwrap_err();
    assert!(wide.message().contains("this check tests it, and it failed"), "{wide:?}");

    let lost = Probe::Failed("DispatchFailure(ConnectorError { kind: Dns })".to_owned());
    let unreachable = verify_scope("bucket", "events", &lost).unwrap_err();
    assert!(unreachable.message().contains("Dns"), "{unreachable:?}");
}

#[test]
fn a_scoped_bucket_adds_and_strips_its_prefix() {
    let bucket = ScopedBucket::scoped("bucket", "events").unwrap();
    assert_eq!(bucket.describe(), "s3://bucket/events");
    assert_eq!(bucket.key("symbol=BTC-USD/x"), "events/symbol=BTC-USD/x");
    assert_eq!(
        bucket.relative_keys(&[
            "events/symbol=BTC-USD/date=2026-08-09/hour=01/part-00000.parquet".to_owned(),
            "events/symbol=BTC-USD/date=2026-08-09/hour=00/part-00000.parquet".to_owned(),
        ]),
        [
            "symbol=BTC-USD/date=2026-08-09/hour=00/part-00000.parquet",
            "symbol=BTC-USD/date=2026-08-09/hour=01/part-00000.parquet",
        ]
    );
    assert!(ScopedBucket::scoped("bucket", "/").is_err());
}

#[test]
fn a_uri_names_a_bucket_or_a_directory() {
    assert!(matches!(target_of("s3://b/p"), Target::Bucket(rest) if rest == "b/p"));
    assert!(matches!(target_of("/tmp/market-data"), Target::Directory(d) if d == "/tmp/market-data"));
}

#[test]
fn the_prefix_is_quoted_where_it_is_refused() {
    let wide = verify_scope("bucket", "events", &Probe::Listed).unwrap_err();
    assert!(
        wide.message().contains("not scoped to the prefix \"events\" they were given"),
        "{wide:?}"
    );
    let odd = verify_scope("bucket", "a\"b\n", &Probe::Listed).unwrap_err();
    assert!(odd.message().contains("the prefix \"a\\\"b\\n\" they"), "{odd:?}");
}
