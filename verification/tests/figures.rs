use lob::figures::{
    cache_level, cells, find_cell, impl_color, k_color, lines, load_rows, parse_cache_size,
    parse_hgrm, peak, select_points, words, CacheLevel,
};
use lob::provenance::{corpus_provenance, cpuinfo, env_json, hex, json_escape, Machine};

#[test]
fn lines_are_split_as_std_splits_them() {
    for s in ["", "\n", "a", "a\n", "a\r\nb", "a\r", "\r\n\r\n", "a\n\nb\n", "x\ry\r\r\nz\r"] {
        let want: Vec<&str> = s.lines().collect();
        assert_eq!(lines(s), want, "{s:?}");
    }
}

#[test]
fn cells_and_words_are_split_as_std_splits_them() {
    for s in ["", ",", "a,b", ",a,,b,", "é,x y"] {
        let want: Vec<&str> = s.split(',').collect();
        assert_eq!(cells(s), want, "{s:?}");
    }
    for s in ["", "  ", "a", " a  b\tc ", "x\u{3000}y"] {
        let want: Vec<&str> = s.split_whitespace().collect();
        assert_eq!(words(s), want, "{s:?}");
    }
}

const TABLE: &str = "impl,depth,p50\nbtree,1,10\n   \nflat,1,7\nbtree,2,20\nbtree\n";

#[test]
fn tables_lose_their_heading_and_blank_lines() {
    let rows = load_rows(TABLE);
    assert_eq!(rows.len(), 4);
    assert_eq!(rows[1], ["flat", "1", "7"]);
    assert_eq!(rows[3], ["btree"]);
    assert!(load_rows("only,a,heading\n").is_empty());
}

#[test]
fn cells_are_found_by_what_stands_beside_them() {
    let rows = load_rows(TABLE);
    assert_eq!(find_cell(&rows, &[(0, "btree"), (1, "2")], 2).as_deref(), Some("20"));
    assert_eq!(find_cell(&rows, &[(0, "btree"), (1, "3")], 2), None);
    assert_eq!(find_cell(&rows, &[(0, "flat"), (9, "1")], 2), None);
    let points = select_points(&rows, &[(0, "btree")], 1, 2);
    assert_eq!(points, vec![("1".to_string(), "10".to_string()), ("2".to_string(), "20".to_string())]);
}

#[test]
fn the_last_peak_is_taken() {
    assert_eq!(peak(&[]), None);
    assert_eq!(peak(&[3]), Some(0));
    assert_eq!(peak(&[1, 5, 2, 5, 4]), Some(3));
}

#[test]
fn listings_give_points() {
    let text = "  Value  Percentile  Count  1/(1-P)\n\n 10 0.5 3 2.00\n 20 0.9 1 10.0 \n 30 1.0 1\n#[Mean = 1, StdDeviation = 2]\n";
    let got = parse_hgrm(text);
    let want: Vec<(String, String)> = [("1/(1-P)", "Value"), ("2.00", "10"), ("10.0", "20")]
        .iter()
        .map(|(a, b)| (a.to_string(), b.to_string()))
        .collect();
    assert_eq!(got, want);
}

#[test]
fn sizes_have_units() {
    assert_eq!(parse_cache_size("48K"), ("48".to_string(), 1024));
    assert_eq!(parse_cache_size(" 8 M\n"), ("8".to_string(), 1024 * 1024));
    assert_eq!(parse_cache_size("1G"), ("1".to_string(), 1024 * 1024 * 1024));
    assert_eq!(parse_cache_size("512"), ("512".to_string(), 1));
    assert_eq!(parse_cache_size(""), (String::new(), 1));
    assert_eq!(cache_level("1", "Data"), Some(CacheLevel::L1d));
    assert_eq!(cache_level("1", "Instruction"), None);
    assert_eq!(cache_level("2", "Unified"), Some(CacheLevel::L2));
    assert_eq!(cache_level("3", ""), Some(CacheLevel::Llc));
}

#[test]
fn lines_of_figures_have_colours() {
    assert_eq!(impl_color("btree"), (200, 30, 30));
    assert_eq!(impl_color("flat"), (220, 130, 0));
    assert_eq!(impl_color("?"), (0, 0, 0));
    assert_eq!(k_color(4), (30, 150, 60));
    assert_eq!(k_color(3), (0, 0, 0));
}

#[test]
fn bytes_are_written_in_hexadecimal() {
    assert_eq!(hex(&[]), "");
    assert_eq!(hex(&[0, 9, 10, 0xff, 0x5c]), "00090aff5c");
}

#[test]
fn backslashes_and_quotation_marks_are_escaped() {
    assert_eq!(json_escape(r#"a\b"c"#), r#"a\\b\"c"#);
}

#[test]
fn values_are_looked_up_by_key() {
    let text = "processor : 0\nmodel name\t: Fast: Chip \nmodel name : other\nflags\n";
    assert_eq!(cpuinfo(text, "model name"), "Fast");
    assert_eq!(cpuinfo(text, "processor"), "0");
    assert_eq!(cpuinfo(text, "flags"), "unknown");
    assert_eq!(cpuinfo(text, "none"), "unknown");
}

#[test]
fn corpora_are_known_by_their_ends() {
    let f = corpus_provenance(&[1, 2, 3]);
    assert_eq!((f.bytes, f.head.as_str(), f.tail.as_str()), (3, "010203", "010203"));
    let bytes: Vec<u8> = (0..40).collect();
    let f = corpus_provenance(&bytes);
    assert_eq!(f.bytes, 40);
    assert_eq!(f.head, "000102030405060708090a0b0c0d0e0f");
    assert_eq!(f.tail, "18191a1b1c1d1e1f2021222324252627");
}

#[test]
fn the_note_of_a_measurement() {
    let m = Machine {
        cpu_model: "a \"b\"".to_string(),
        logical_cores: "8".to_string(),
        cpu_governor: "g".to_string(),
        kernel: "k".to_string(),
        rustc: "r".to_string(),
        git_commit: "c".to_string(),
    };
    let text = env_json(
        &m,
        17,
        &[("x".to_string(), Some(corpus_provenance(&[255]))), ("y".to_string(), None)],
    );
    let want = "{\n  \"cpu_model\": \"a \\\"b\\\"\",\n  \"logical_cores\": \"8\",\n  \"cpu_governor\": \"g\",\n  \"kernel\": \"k\",\n  \"rustc\": \"r\",\n  \"target_cpu\": \"native\",\n  \"git_commit\": \"c\",\n  \"pinned_core\": 0,\n  \"clock_overhead_ns\": 17,\n  \"corpora\": [\n    { \"name\": \"x\", \"bytes\": 1, \"first16_hex\": \"ff\", \"last16_hex\": \"ff\" },\n    { \"name\": \"y\", \"bytes\": null }\n  ]\n}\n";
    assert_eq!(text, want);
}
