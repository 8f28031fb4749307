use flock_context::context::{CloudFunction, DataSinkType};
use flock_context::encoding::Encoding;
use flock_context::launch::{next_target, plan_functions, LaunchError};
use flock_context::naming::format_function_name;
use flock_context::plan::{compare_schema, first_matching_source};

fn names(v: &[&str]) -> Vec<String> {
    v.iter().map(|s| s.to_string()).collect()
}

#[test]
fn compare_schema_subset_either_side() {
    assert!(compare_schema(&names(&["a", "b", "c"]), &names(&["c", "a"])));
    assert!(compare_schema(&names(&["c", "a"]), &names(&["a", "b", "c"])));
    assert!(!compare_schema(&names(&["a", "b"]), &names(&["c", "d"])));
    assert!(compare_schema(&names(&[]), &names(&["x"])));
}

#[test]
fn compare_schema_symmetric_on_equal_size() {
    let s1 = names(&["a", "b"]);
    let s2 = names(&["b", "a"]);
    let s3 = names(&["b", "c"]);
    assert_eq!(compare_schema(&s1, &s2), compare_schema(&s2, &s1));
    assert!(compare_schema(&s1, &s2));
    assert_eq!(compare_schema(&s1, &s3), compare_schema(&s3, &s1));
    assert!(!compare_schema(&s1, &s3));
}

#[test]
fn first_matching_source_earliest() {
    let sources = vec![names(&["x"]), names(&["a", "b"]), names(&["a"])];
    assert_eq!(first_matching_source(&names(&["a"]), &sources), Some(1));
    assert_eq!(first_matching_source(&names(&["z", "y"]), &sources), None);
}

#[test]
fn function_names_are_zero_padded() {
    assert_eq!(format_function_name("q5", 3, 7), "q5-03-07");
    assert_eq!(format_function_name("SX72HzqFz1Qij4bP", 0, 0), "SX72HzqFz1Qij4bP-00-00");
    assert_eq!(format_function_name("d", 99, 10), "d-99-10");
}

#[test]
fn dag_single_and_group_nodes() {
    let fs = plan_functions("q1", &vec![4, 1, 1], 3).unwrap();
    let seen: Vec<(usize, usize, bool, String)> =
        fs.iter().map(|f| (f.fragment, f.replica, f.single_invocation, f.name.clone())).collect();
    assert_eq!(
        seen,
        vec![
            (2, 0, false, "q1-02-00".to_string()),
            (1, 0, false, "q1-01-00".to_string()),
            (0, 0, true, "q1-00-00".to_string()),
            (0, 1, true, "q1-00-01".to_string()),
            (0, 2, true, "q1-00-02".to_string()),
        ]
    );
}

#[test]
fn dag_group_width_does_not_follow_concurrency() {
    let fs = plan_functions("q2", &vec![2, 50], 4).unwrap();
    assert_eq!(fs.len(), 8);
    assert!(fs.iter().all(|f| f.single_invocation));
}

#[test]
fn dag_guardrail_at_hundred_nodes() {
    assert_eq!(plan_functions("q", &vec![1; 100], 4).err(), Some(LaunchError::TooManyNodes(100)));
    assert_eq!(plan_functions("q", &vec![1; 99], 4).unwrap().len(), 99);
}

#[test]
fn dag_rejects_bad_width_and_zero_concurrency() {
    assert_eq!(plan_functions("q", &vec![1], 0).err(), Some(LaunchError::InvalidGroupWidth(0)));
    assert_eq!(plan_functions("q", &vec![1], 101).err(), Some(LaunchError::InvalidGroupWidth(101)));
    assert_eq!(plan_functions("q", &vec![1, 0, 0], 2).err(), Some(LaunchError::ZeroConcurrency(1)));
}

#[test]
fn codec_round_trip_and_tags() {
    let data: Vec<u8> = (0..200u32).map(|i| (i % 7) as u8).collect();
    for e in [Encoding::Plain, Encoding::Snappy, Encoding::Lz4] {
        let c = e.compress(&data).unwrap();
        assert_eq!(e.decompress(&c).unwrap(), data);
        assert_eq!(Encoding::from_tag(e.tag()), Some(e));
    }
    assert_ne!(Encoding::Snappy.compress(&data).unwrap(), data);
    assert_ne!(Encoding::Lz4.compress(&data).unwrap(), data);
    assert_eq!(Encoding::from_tag(3), None);
    assert_eq!(Encoding::default(), Encoding::Plain);
}

#[test]
fn compare_schema_repeated_names_symmetric() {
    let s1 = names(&["a", "a"]);
    let s2 = names(&["a", "b"]);
    assert!(compare_schema(&s1, &s2));
    assert!(compare_schema(&s2, &s1));
    let s3 = names(&["c", "c"]);
    assert!(!compare_schema(&s3, &s2));
    assert!(!compare_schema(&s2, &s3));
}

#[test]
fn group_names() {
    assert_eq!(flock_context::naming::format_group_name("q5", 0), "q5-00");
    assert_eq!(flock_context::naming::format_group_name("q5", 42), "q5-42");
}

#[test]
fn next_targets() {
    assert_eq!(next_target("q3", None, 8, DataSinkType::S3), CloudFunction::Sink(DataSinkType::S3));
    assert_eq!(next_target("q3", Some((2, 1)), 8, DataSinkType::S3), CloudFunction::Lambda("q3-02-00".to_string()));
    assert_eq!(next_target("q3", Some((4, 16)), 8, DataSinkType::S3), CloudFunction::Group(("q3-04".to_string(), 8)));
}
