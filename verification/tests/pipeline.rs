use store_fetch::directive::{parse_all, parse_directive};
use store_fetch::error::PipelineError;
use store_fetch::lifecycle::{build_commands, conclude, FinalStep};
use store_fetch::plan::build_plan;
use store_fetch::schedule::{parent_dir, schedule, Command};

fn bv(s: &str) -> Vec<u8> {
    s.as_bytes().to_vec()
}

fn parse_ok(s: &str) -> (Vec<u8>, Vec<u8>, Vec<u8>) {
    match parse_directive(&bv(s)) {
        Ok(e) => (e.bucket, e.key, e.dest),
        Err(_) => panic!("directive should parse: {}", s),
    }
}

fn parse_err(s: &str) -> Vec<u8> {
    match parse_directive(&bv(s)) {
        Ok(_) => panic!("directive should be rejected: {}", s),
        Err(PipelineError::MalformedDirective(raw)) => raw,
        Err(_) => panic!("wrong error for: {}", s),
    }
}

#[test]
fn parse_basic_directive() {
    let (b, k, d) = parse_ok("store://mybucket/file1.txt:/data/file1.txt");
    assert_eq!(b, bv("mybucket"));
    assert_eq!(k, bv("file1.txt"));
    assert_eq!(d, bv("/data/file1.txt"));
}

#[test]
fn parse_key_with_colons_takes_last_colon() {
    let (b, k, d) = parse_ok("store://b/a:b:c:/tmp/out");
    assert_eq!(b, bv("b"));
    assert_eq!(k, bv("a:b:c"));
    assert_eq!(d, bv("/tmp/out"));
}

#[test]
fn parse_key_with_slashes() {
    let (b, k, d) = parse_ok("store://bkt/deep/path/to/obj:/tmp/f");
    assert_eq!(b, bv("bkt"));
    assert_eq!(k, bv("deep/path/to/obj"));
    assert_eq!(d, bv("/tmp/f"));
}

#[test]
fn parse_bucket_with_region_hint_is_verbatim() {
    let (b, k, d) = parse_ok("store://bucket_us-west-2/k:/tmp/f");
    assert_eq!(b, bv("bucket_us-west-2"));
    assert_eq!(k, bv("k"));
    assert_eq!(d, bv("/tmp/f"));
}

#[test]
fn parse_empty_segments_are_well_formed() {
    let (b, k, d) = parse_ok("store:///:");
    assert_eq!(b, bv(""));
    assert_eq!(k, bv(""));
    assert_eq!(d, bv(""));
}

#[test]
fn parse_rejects_missing_prefix() {
    assert_eq!(parse_err("s3://b/k:/tmp/f"), bv("s3://b/k:/tmp/f"));
    assert_eq!(parse_err(""), bv(""));
    assert_eq!(parse_err("not-a-valid-directive"), bv("not-a-valid-directive"));
}

#[test]
fn parse_rejects_missing_slash() {
    assert_eq!(parse_err("store://bk:d"), bv("store://bk:d"));
}

#[test]
fn parse_rejects_missing_colon() {
    assert_eq!(parse_err("store://b/keyonly"), bv("store://b/keyonly"));
}

#[test]
fn parse_rejects_colon_only_before_slash() {
    // the only colons sit inside the bucket segment, before the first `/`
    assert_eq!(parse_err("store://b:c/key"), bv("store://b:c/key"));
}

#[test]
fn parse_all_rejects_first_malformed() {
    let raws = vec![bv("store://b/k:/tmp/a"), bv("nope"), bv("also-bad")];
    match parse_all(&raws) {
        Err(PipelineError::MalformedDirective(s)) => assert_eq!(s, bv("nope")),
        _ => panic!("batch with a malformed directive must be rejected"),
    }
}

#[test]
fn plan_duplicate_key_last_wins() {
    let raws = vec![bv("store://b/k:/tmp/a"), bv("store://b/k:/tmp/b")];
    let entries = parse_all(&raws).unwrap();
    let plan = build_plan(&entries);
    assert_eq!(plan.get_dest(&bv("b"), &bv("k")), Some(bv("/tmp/b")));
}

#[test]
fn plan_groups_by_bucket() {
    let raws = vec![
        bv("store://b1/k1:/tmp/a"),
        bv("store://b2/k2:/tmp/b"),
        bv("store://b1/k3:/tmp/c"),
    ];
    let entries = parse_all(&raws).unwrap();
    let plan = build_plan(&entries);
    assert_eq!(plan.buckets.len(), 2);
    assert_eq!(plan.get_dest(&bv("b1"), &bv("k1")), Some(bv("/tmp/a")));
    assert_eq!(plan.get_dest(&bv("b1"), &bv("k3")), Some(bv("/tmp/c")));
    assert_eq!(plan.get_dest(&bv("b2"), &bv("k2")), Some(bv("/tmp/b")));
    assert_eq!(plan.get_dest(&bv("b2"), &bv("k1")), None);
    assert_eq!(plan.get_dest(&bv("b3"), &bv("k1")), None);
}

#[test]
fn plan_content_survives_reordering() {
    let a = vec![
        bv("store://b1/k1:/tmp/a"),
        bv("store://b2/k2:/tmp/b"),
        bv("store://b1/k3:/tmp/c"),
    ];
    let b = vec![
        bv("store://b1/k3:/tmp/c"),
        bv("store://b1/k1:/tmp/a"),
        bv("store://b2/k2:/tmp/b"),
    ];
    let plan_a = build_plan(&parse_all(&a).unwrap());
    let plan_b = build_plan(&parse_all(&b).unwrap());
    for (bucket, key) in [("b1", "k1"), ("b1", "k3"), ("b2", "k2"), ("b2", "zzz")] {
        assert_eq!(
            plan_a.get_dest(&bv(bucket), &bv(key)),
            plan_b.get_dest(&bv(bucket), &bv(key))
        );
    }
}

#[test]
fn parent_dir_cases() {
    assert_eq!(parent_dir(&bv("/data/file1.txt")), Some(bv("/data")));
    assert_eq!(parent_dir(&bv("/a/b/c")), Some(bv("/a/b")));
    assert_eq!(parent_dir(&bv("/a")), Some(bv("/")));
    assert_eq!(parent_dir(&bv("plain")), Some(bv("")));
    assert_eq!(parent_dir(&bv("/")), None);
    assert_eq!(parent_dir(&bv("")), None);
}

#[test]
fn schedule_puts_all_directories_before_any_transfer() {
    let raws = vec![
        bv("store://b1/k1:/tmp/x/a"),
        bv("store://b2/k2:/tmp/y/b"),
        bv("store://b1/k3:/tmp/z/c"),
    ];
    let plan = build_plan(&parse_all(&raws).unwrap());
    let cmds = schedule(&plan).unwrap();
    let mut seen_transfer = false;
    let mut dirs = 0;
    let mut transfers = 0;
    for c in &cmds {
        match c {
            Command::MakeDir { .. } => {
                assert!(!seen_transfer, "a directory command after a transfer");
                dirs += 1;
            }
            Command::Connect { .. } => {}
            Command::Transfer { .. } => {
                seen_transfer = true;
                transfers += 1;
            }
        }
    }
    assert_eq!(dirs, 3);
    assert_eq!(transfers, 3);
}

#[test]
fn schedule_rejects_destination_without_parent() {
    let raws = vec![bv("store://ok/k:/tmp/fine"), bv("store://bad/k2:/")];
    let plan = build_plan(&parse_all(&raws).unwrap());
    match schedule(&plan) {
        Err(PipelineError::PathConversionError(d)) => assert_eq!(d, bv("/")),
        _ => panic!("a destination without a parent must refuse the plan"),
    }
}

#[test]
fn build_commands_single_directive() {
    let raws = vec![bv("store://mybucket/file1.txt:/data/file1.txt")];
    let (plan, cmds) = build_commands(&raws).unwrap();
    assert_eq!(plan.get_dest(&bv("mybucket"), &bv("file1.txt")), Some(bv("/data/file1.txt")));
    assert_eq!(
        cmds,
        vec![
            Command::MakeDir { dir: bv("/data") },
            Command::Connect { bucket: bv("mybucket") },
            Command::Transfer {
                bucket: bv("mybucket"),
                key: bv("file1.txt"),
                dest: bv("/data/file1.txt"),
            },
        ]
    );
}

#[test]
fn build_commands_rejects_invalid_directive() {
    let raws = vec![bv("not-a-valid-directive")];
    match build_commands(&raws) {
        Err(PipelineError::MalformedDirective(s)) => {
            assert_eq!(s, bv("not-a-valid-directive"));
        }
        _ => panic!("an invalid directive must refuse the whole run"),
    }
}

#[test]
fn build_commands_rejects_bad_destination_before_any_transfer() {
    let raws = vec![bv("store://b/k:/tmp/ok"), bv("store://b/k2:")];
    match build_commands(&raws) {
        Err(PipelineError::PathConversionError(d)) => assert_eq!(d, bv("")),
        _ => panic!("an empty destination has no parent and must refuse the run"),
    }
}

#[test]
fn conclude_parks_only_after_success_with_flag() {
    assert_eq!(conclude(true, true), FinalStep::Park);
    assert_eq!(conclude(true, false), FinalStep::ExitSuccess);
    assert_eq!(conclude(false, true), FinalStep::ExitFailure);
    assert_eq!(conclude(false, false), FinalStep::ExitFailure);
}
