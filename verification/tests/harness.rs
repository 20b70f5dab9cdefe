//! The measurement harness.

use lob::harness::{for_impl, parse_core_list, reader_cores, warmup, IMPLS};

#[test]
fn impl_registry_is_the_four_books() {
    assert_eq!(IMPLS, ["btree", "sorted", "rev", "flat"]);
    assert_eq!(for_impl("btree"), Some("btree"));
    assert_eq!(for_impl("rev"), Some("rev"));
    assert_eq!(for_impl("flat"), Some("flat"));
    assert_eq!(for_impl("nope"), None);
}

#[test]
fn warmup_runs_exactly_n_times() {
    let mut n = 0u64;
    warmup(1000, || n += 1);
    assert_eq!(n, 1000);
}

#[test]
fn parse_core_list_handles_commas_spaces_and_junk() {
    assert_eq!(parse_core_list("6,12,18"), vec![6, 12, 18]);
    assert_eq!(parse_core_list(" 6 , 12 ,18 "), vec![6, 12, 18]);
    assert_eq!(parse_core_list("6 12 18"), vec![6, 12, 18]);
    assert_eq!(parse_core_list(""), Vec::<usize>::new());
    assert_eq!(parse_core_list("6,,x,18"), vec![6, 18]);
}

#[test]
fn reader_cores_flag_beats_env_and_defaults_empty() {
    let args = ["--reader-cores".to_string(), "1,2,3".to_string()];
    assert_eq!(reader_cores(&args, Some("7")), vec![1, 2, 3]);
    assert_eq!(reader_cores(&[], Some("7, 8")), vec![7, 8]);
    assert!(reader_cores(&[], None).is_empty());
}

#[test]
fn core_lists_join() {
    for a in ["", "6", "6,", "1 2,x", " 3 ,"] {
        for b in ["", "7", ",8", "y 9"] {
            let mut both = parse_core_list(a);
            both.extend(parse_core_list(b));
            assert_eq!(parse_core_list(&format!("{a},{b}")), both);
            assert_eq!(parse_core_list(&format!("{a} {b}")), both);
        }
    }
}
