use terrabastard::report::RepetitionIndex;
use terrabastard::walk::{find_files, find_roots, string_repetitions, FsEntry, FsTree};

fn s(x: &str) -> String {
    x.to_string()
}

fn file(path: &str, text: &str) -> FsEntry {
    FsEntry { path: s(path), is_file: true, text: Some(s(text)) }
}

fn dir(path: &str) -> FsEntry {
    FsEntry { path: s(path), is_file: false, text: None }
}

fn assert_entry(report: &RepetitionIndex, i: usize, value: &str, addresses: &[&str]) {
    assert_eq!(report.entries[i].value, value);
    let want: Vec<String> = addresses.iter().map(|a| s(a)).collect();
    assert_eq!(report.entries[i].addresses, want);
}

const FOO_TF: &str = r#"
                resource thing "s" {
                    were = "weird"
                    got = "wild"
                }
                "#;

const BAR_TF: &str = r#"
                module stuff {
                    in = {
                        the = "wild"
                        sanely = "repetitive"
                    }
                    gets = "repetitive"
                    is = "repetitive"
                }
            "#;

const BACKEND_LONDON: &str = r#"
                terraform {
                    backend "s3" {
                        bucket         = "eu-west-2"
                    }
                }
                "#;

const BACKEND_TOKYO: &str = r#"
                terraform {
                    backend "s3" {
                        bucket         = "ap-northeast-1"
                    }
                }
                "#;

fn flat_tree() -> FsTree {
    FsTree {
        path: s("demo"),
        entries: vec![dir("demo"), file("demo/foo.tf", FOO_TF), file("demo/bar.tf", BAR_TF)],
    }
}

#[test]
fn basic_string_repetitions_no_terraform_roots() {
    let tree = flat_tree();
    // no qualifying backend file: the scan falls back to the starting path
    assert_eq!(find_roots(&tree), Vec::<String>::new());

    for threshold in [0, 1] {
        let report = string_repetitions(&tree, threshold);
        assert_eq!(report.entries.len(), 3);
        assert_entry(
            &report,
            0,
            "repetitive",
            &["demo:module.stuff.in.sanely", "demo:module.stuff.gets", "demo:module.stuff.is"],
        );
        assert_entry(
            &report,
            1,
            "wild",
            &["demo:resource.thing.s.got", "demo:module.stuff.in.the"],
        );
        assert_entry(&report, 2, "weird", &["demo:resource.thing.s.were"]);
    }

    let report = string_repetitions(&tree, 2);
    assert_eq!(report.entries.len(), 2);
    assert_entry(
        &report,
        0,
        "repetitive",
        &["demo:module.stuff.in.sanely", "demo:module.stuff.gets", "demo:module.stuff.is"],
    );
    assert_entry(&report, 1, "wild", &["demo:resource.thing.s.got", "demo:module.stuff.in.the"]);

    let report = string_repetitions(&tree, 3);
    assert_eq!(report.entries.len(), 1);
    assert_entry(
        &report,
        0,
        "repetitive",
        &["demo:module.stuff.in.sanely", "demo:module.stuff.gets", "demo:module.stuff.is"],
    );
}

fn multi_root_tree() -> FsTree {
    FsTree {
        path: s("demo"),
        entries: vec![
            dir("demo"),
            dir("demo/london"),
            file("demo/london/terraform.tf", BACKEND_LONDON),
            file("demo/london/foo.tf", FOO_TF),
            file("demo/london/bar.tf", BAR_TF),
            dir("demo/tokyo"),
            file("demo/tokyo/terraform.tf", BACKEND_TOKYO),
            file("demo/tokyo/foo.tf", FOO_TF),
            file("demo/tokyo/bar.tf", BAR_TF),
        ],
    }
}

#[test]
fn basic_string_repetition_multiple_terraform_roots() {
    let tree = multi_root_tree();
    assert_eq!(find_roots(&tree), vec![s("demo/london"), s("demo/tokyo")]);

    let report = string_repetitions(&tree, 2);
    assert_eq!(report.entries.len(), 3);
    assert_entry(
        &report,
        0,
        "repetitive",
        &[
            "demo/london:module.stuff.in.sanely",
            "demo/london:module.stuff.gets",
            "demo/london:module.stuff.is",
            "demo/tokyo:module.stuff.in.sanely",
            "demo/tokyo:module.stuff.gets",
            "demo/tokyo:module.stuff.is",
        ],
    );
    assert_entry(
        &report,
        1,
        "wild",
        &[
            "demo/london:resource.thing.s.got",
            "demo/london:module.stuff.in.the",
            "demo/tokyo:resource.thing.s.got",
            "demo/tokyo:module.stuff.in.the",
        ],
    );
    assert_entry(
        &report,
        2,
        "weird",
        &["demo/london:resource.thing.s.were", "demo/tokyo:resource.thing.s.were"],
    );

    // a threshold of 3 drops the twice-seen value but keeps the rest
    let report = string_repetitions(&tree, 3);
    assert_eq!(report.entries.len(), 2);
    assert_eq!(report.entries[0].value, "repetitive");
    assert_eq!(report.entries[1].value, "wild");
}

#[test]
fn find_files_admits_only_the_exact_extension() {
    let tree = FsTree {
        path: s("demo"),
        entries: vec![
            dir("demo"),
            file("demo/a.tf", ""),
            file("demo/b.TF", ""),
            file("demo/.tf", ""),
            file("demo/c.tfx", ""),
            file("demo/noext", ""),
            dir("demo/dir.tf"),
            file("demo/sub/deep.tf", ""),
        ],
    };
    assert_eq!(find_files(&tree), vec![s("demo/a.tf"), s("demo/sub/deep.tf")]);
}

#[test]
fn unreadable_and_unparsable_files_are_skipped() {
    let tree = FsTree {
        path: s("demo"),
        entries: vec![
            FsEntry { path: s("demo/broken.tf"), is_file: true, text: None },
            file("demo/bad.tf", "not {{{{ hcl"),
            file("demo/good.tf", "kept = \"yes\"\nalso = \"yes\""),
        ],
    };
    let report = string_repetitions(&tree, 0);
    assert_eq!(report.entries.len(), 1);
    assert_entry(&report, 0, "yes", &["demo:kept", "demo:also"]);
}

#[test]
fn higher_thresholds_filter_without_reordering() {
    let tree = multi_root_tree();
    let low = string_repetitions(&tree, 1);
    let high = string_repetitions(&tree, 4);
    // the high-threshold report is the low one with small entries removed
    let filtered: Vec<&str> = low
        .entries
        .iter()
        .filter(|e| e.addresses.len() >= 4)
        .map(|e| e.value.as_str())
        .collect();
    let high_values: Vec<&str> = high.entries.iter().map(|e| e.value.as_str()).collect();
    assert_eq!(high_values, filtered);
    for (h, l) in high.entries.iter().zip(low.entries.iter().filter(|e| e.addresses.len() >= 4)) {
        assert_eq!(h.addresses, l.addresses);
    }
}

#[test]
fn greater_cardinality_never_ranks_later() {
    let report = string_repetitions(&multi_root_tree(), 0);
    for w in report.entries.windows(2) {
        assert!(w[0].addresses.len() >= w[1].addresses.len());
    }
}

#[test]
fn scanning_twice_yields_the_same_report() {
    let tree = multi_root_tree();
    let a = string_repetitions(&tree, 2);
    let b = string_repetitions(&tree, 2);
    assert_eq!(a.entries.len(), b.entries.len());
    for (x, y) in a.entries.iter().zip(b.entries.iter()) {
        assert_eq!(x.value, y.value);
        assert_eq!(x.addresses, y.addresses);
    }
}

#[test]
fn single_occurrences_never_reach_a_thresholded_report() {
    let tree = flat_tree();
    // "weird" occurs exactly once
    for threshold in [2, 3, 10] {
        let report = string_repetitions(&tree, threshold);
        assert!(report.entries.iter().all(|e| e.value != "weird"));
    }
}
