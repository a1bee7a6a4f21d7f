use run_mash::alias::{
    alias_delimiter, aliases_from_rows, load_aliases, skipped_alias_records, skipped_records,
    AliasTable,
};
use run_mash::discover::{discover, DirChild, PathEntry};
use run_mash::error::{ErrorKind, MyError};
use run_mash::matrix::{basename, fix_mash_distance, fix_mash_header, fix_mash_line};
use run_mash::pool::{JobPool, PoolAction};
use run_mash::sketch::{
    collect_sketches, decimal_string, figures_script, join_path, plan_sketch_jobs,
    sketch_list_text, sketch_outputs, SketchSettings,
};
use run_mash::Config;

fn strings(v: &[&str]) -> Vec<String> {
    v.iter().map(|s| s.to_string()).collect()
}

fn rows(v: &[&[&str]]) -> Vec<Vec<String>> {
    v.iter().map(|r| strings(r)).collect()
}

fn ab_aliases() -> Option<AliasTable> {
    aliases_from_rows(&rows(&[
        &["sample_name", "alias"],
        &["sampleA.fasta", "A"],
        &["sampleB.fasta", "B"],
    ]))
}

fn config() -> Config {
    Config {
        alias_file: None,
        bin_dir: None,
        kmer_size: None,
        sketch_size: None,
        num_threads: None,
        num_concurrent: 8,
        out_dir: "out".to_string(),
        query: vec!["data".to_string()],
    }
}

#[test]
fn my_error_new_keeps_message() {
    let e = MyError::new("No input files");
    assert_eq!(e.kind, ErrorKind::General);
    assert_eq!(e.description(), "No input files");
}

#[test]
fn basename_takes_last_segment() {
    assert_eq!(basename("dir/sub/sampleC.fasta", &None), "sampleC.fasta");
    assert_eq!(basename("plain", &None), "plain");
    assert_eq!(basename("dir/", &None), "");
}

#[test]
fn basename_uses_alias_when_present() {
    let a = ab_aliases();
    assert_eq!(basename("dir/sampleA.fasta", &a), "A");
    assert_eq!(basename("dir/sampleC.fasta", &a), "sampleC.fasta");
}

#[test]
fn header_alias_substitution() {
    let a = ab_aliases();
    assert_eq!(fix_mash_header("\tdir/sampleA.fasta\tdir/sampleB.fasta", &a), "\tA\tB");
}

#[test]
fn header_first_field_is_blanked() {
    assert_eq!(fix_mash_header("#query\t/x/f1\t/x/f2", &None), "\tf1\tf2");
}

#[test]
fn line_keeps_distances() {
    let a = ab_aliases();
    assert_eq!(fix_mash_line("dir/sampleA.fasta\t0\t0.0123", &a), "A\t0\t0.0123");
    assert_eq!(fix_mash_line("dir/other.fa\t0.5\t0", &a), "other.fa\t0.5\t0");
}

#[test]
fn distance_matrix_normalised_with_aliases() {
    let a = ab_aliases();
    let raw = "#query\tdir/sampleA.fasta\tdir/sampleB.fasta\n\
               dir/sampleA.fasta\t0\t0.2\n\
               dir/sampleB.fasta\t0.2\t0\n";
    let want = "\tA\tB\nA\t0\t0.2\nB\t0.2\t0\n";
    assert_eq!(fix_mash_distance(raw, &a), want);
}

#[test]
fn normalise_keeps_line_and_field_counts() {
    let raw = "#query\ta/x\tb/y\tc/z\na/x\t0\t1\t2\nb/y\t1\t0\t3\nc/z\t2\t3\t0";
    let out = fix_mash_distance(raw, &None);
    let in_lines: Vec<&str> = raw.split('\n').collect();
    let out_lines: Vec<&str> = out.split('\n').collect();
    assert_eq!(in_lines.len(), out_lines.len());
    for (i, (l, o)) in in_lines.iter().zip(out_lines.iter()).enumerate() {
        let fi: Vec<&str> = l.split('\t').collect();
        let fo: Vec<&str> = o.split('\t').collect();
        assert_eq!(fi.len(), fo.len());
        if i > 0 {
            assert_eq!(&fi[1..], &fo[1..]);
        }
    }
    assert_eq!(out_lines[0], "\tx\ty\tz");
}

#[test]
fn empty_matrix_stays_empty() {
    assert_eq!(fix_mash_distance("", &None), "");
}

#[test]
fn alias_rows_missing_alias_field_are_skipped() {
    let t = aliases_from_rows(&rows(&[
        &["sample_name", "alias"],
        &["s1.fa"],
        &["s2.fa", "two"],
    ]));
    let t = t.expect("one valid row");
    assert_eq!(t.len(), 1);
    assert_eq!(basename("s2.fa", &Some(t)), "two");
}

#[test]
fn alias_file_without_usable_rows_is_absent() {
    let t = aliases_from_rows(&rows(&[&["sample_name", "label"], &["s1.fa", "one"]]));
    assert!(t.is_none());
    assert_eq!(fix_mash_header("\td/s1.fa", &t), "\ts1.fa");
    assert!(aliases_from_rows(&rows(&[])).is_none());
    assert!(aliases_from_rows(&rows(&[&["sample_name", "alias"]])).is_none());
}

#[test]
fn later_alias_row_replaces_earlier() {
    let t = aliases_from_rows(&rows(&[
        &["alias", "sample_name"],
        &["one", "s.fa"],
        &["uno", "s.fa"],
    ]));
    assert_eq!(basename("s.fa", &t), "uno");
}

#[test]
fn load_aliases_reads_csv_by_extension() {
    let data = b"sample_name,alias\nsampleA.fasta,A\nsampleB.fasta,B\n";
    let t = load_aliases("dir/aliases.csv", data).expect("readable");
    assert_eq!(fix_mash_header("\tdir/sampleA.fasta\tdir/sampleB.fasta", &t), "\tA\tB");
}

#[test]
fn load_aliases_reads_tab_otherwise() {
    let data = b"sample_name\talias\nsampleA.fasta\tA\n";
    let t = load_aliases("aliases.txt", data).expect("readable");
    assert_eq!(basename("x/sampleA.fasta", &t), "A");
    let as_csv = load_aliases("aliases.csv", data).expect("readable");
    assert!(as_csv.is_none());
}

#[test]
fn load_aliases_skips_short_row() {
    let data = b"sample_name\talias\nbroken\nsampleB.fasta\tB\n";
    let t = load_aliases("aliases.tsv", data).expect("a short row does not abort");
    assert_eq!(basename("sampleB.fasta", &t), "B");
    assert_eq!(basename("broken", &t), "broken");
}

#[test]
fn load_aliases_rejects_bad_utf8() {
    let data: &[u8] = b"sample_name\talias\n\xff\xfe\tA\n";
    let e = load_aliases("aliases.tsv", data).err().expect("unreadable");
    assert_eq!(e.kind, ErrorKind::AliasFileUnreadable);
}

#[test]
fn delimiter_by_extension() {
    assert_eq!(alias_delimiter("a.csv"), b',');
    assert_eq!(alias_delimiter("dir.csv/a.tsv"), b'\t');
    assert_eq!(alias_delimiter("a"), b'\t');
    assert_eq!(alias_delimiter(".csv"), b'\t');
}

#[test]
fn discover_files_and_direct_children() {
    let entries = vec![
        PathEntry::File("one.fa".to_string()),
        PathEntry::Dir(vec![
            DirChild { path: "d/a.fa".to_string(), is_file: true },
            DirChild { path: "d/sub".to_string(), is_file: false },
            DirChild { path: "d/b.fa".to_string(), is_file: true },
        ]),
    ];
    let files = discover(&entries).expect("files");
    assert_eq!(files, strings(&["one.fa", "d/a.fa", "d/b.fa"]));
}

#[test]
fn discover_nothing_fails() {
    let e = discover(&vec![]).err().expect("no input");
    assert_eq!(e.kind, ErrorKind::NoInputFiles);
    let only_dirs = vec![PathEntry::Dir(vec![DirChild { path: "d/s".to_string(), is_file: false }])];
    assert_eq!(discover(&only_dirs).err().expect("no input").kind, ErrorKind::NoInputFiles);
    assert_eq!(discover(&vec![PathEntry::Dir(vec![])]).err().expect("empty").kind, ErrorKind::NoInputFiles);
}

#[test]
fn settings_defaults_and_bounds() {
    let mut c = config();
    let s = SketchSettings::from_config(&c);
    assert_eq!(s, SketchSettings { num_threads: 12, kmer_size: 21, sketch_size: 1000 });
    c.num_threads = Some(64);
    c.kmer_size = Some(15);
    c.sketch_size = Some(5000);
    let s = SketchSettings::from_config(&c);
    assert_eq!(s, SketchSettings { num_threads: 12, kmer_size: 15, sketch_size: 5000 });
    c.num_threads = Some(63);
    assert_eq!(SketchSettings::from_config(&c).num_threads, 63);
    c.num_threads = Some(0);
    assert_eq!(SketchSettings::from_config(&c).num_threads, 12);
}

#[test]
fn join_path_cases() {
    assert_eq!(join_path("out/sketches", "a.fa"), "out/sketches/a.fa");
    assert_eq!(join_path("out/", "a.fa"), "out/a.fa");
    assert_eq!(join_path("", "a.fa"), "a.fa");
}

#[test]
fn decimal_numerals() {
    assert_eq!(decimal_string(0), "0");
    assert_eq!(decimal_string(7), "7");
    assert_eq!(decimal_string(1000), "1000");
    assert_eq!(decimal_string(u32::MAX), "4294967295");
}

#[test]
fn sketch_outputs_use_raw_basename() {
    let files = strings(&["data/sampleA.fasta", "x/y/b.fa"]);
    let outs = sketch_outputs("out/sketches", &files);
    assert_eq!(outs, strings(&["out/sketches/sampleA.fasta.msh", "out/sketches/b.fa.msh"]));
}

#[test]
fn plan_skips_existing_sketches() {
    let s = SketchSettings { num_threads: 4, kmer_size: 21, sketch_size: 1000 };
    let files = strings(&["d/a.fa", "d/b.fa", "d/c.fa"]);
    let jobs = plan_sketch_jobs(s, "sk", &files, &vec![false, true, false]);
    assert_eq!(jobs.len(), 2);
    assert_eq!(jobs[0].input, "d/a.fa");
    assert_eq!(jobs[0].out_prefix, "sk/a.fa");
    assert_eq!(jobs[1].input, "d/c.fa");
    assert_eq!(
        jobs[1].args(),
        strings(&["sketch", "-p", "4", "-o", "sk/c.fa", "-s", "1000", "-k", "21", "d/c.fa"])
    );
}

#[test]
fn rerun_with_all_sketches_plans_no_jobs() {
    let s = SketchSettings { num_threads: 12, kmer_size: 21, sketch_size: 1000 };
    let files = strings(&["d/a.fa", "d/b.fa"]);
    assert!(plan_sketch_jobs(s, "sk", &files, &vec![true, true]).is_empty());
}

#[test]
fn pool_fails_fast() {
    let mut p = JobPool::new(5, 2);
    assert_eq!(p.next_action(), PoolAction::Start(0));
    p.job_started();
    assert_eq!(p.next_action(), PoolAction::Start(1));
    p.job_started();
    assert_eq!(p.next_action(), PoolAction::Wait);
    p.job_finished(false);
    assert_eq!(p.next_action(), PoolAction::Wait);
    p.job_finished(true);
    assert_eq!(p.next_action(), PoolAction::Finished);
    assert_eq!(p.started, 2);
    let e = p.outcome().err().expect("failure");
    assert_eq!(e.kind, ErrorKind::JobPoolFailure);
}

#[test]
fn pool_runs_everything_within_limit() {
    let mut p = JobPool::new(3, 2);
    let mut started = vec![];
    loop {
        match p.next_action() {
            PoolAction::Start(i) => {
                started.push(i);
                p.job_started();
                assert!(p.running <= 2);
            }
            PoolAction::Wait => p.job_finished(true),
            PoolAction::Finished => break,
        }
    }
    assert_eq!(started, vec![0, 1, 2]);
    assert!(p.outcome().is_ok());
    let empty = JobPool::new(0, 8);
    assert_eq!(empty.next_action(), PoolAction::Finished);
    assert_eq!(JobPool::new(1, 0).limit, 1);
}

#[test]
fn collect_sorts_and_counts() {
    let found = strings(&["sk/c.fa.msh", "sk/a.fa.msh", "sk/B.fa.msh"]);
    let got = collect_sketches(3, &found).expect("complete");
    assert_eq!(got, strings(&["sk/B.fa.msh", "sk/a.fa.msh", "sk/c.fa.msh"]));
    let e = collect_sketches(4, &found).err().expect("incomplete");
    assert_eq!(e.kind, ErrorKind::IncompleteSketching);
}

#[test]
fn list_text_and_script() {
    assert_eq!(sketch_list_text(&strings(&["a.msh", "b.msh"])), "a.msh\nb.msh\n");
    assert_eq!(sketch_list_text(&vec![]), "");
    assert_eq!(figures_script(&None), "make_figures.r");
    assert_eq!(figures_script(&Some("/opt/bin".to_string())), "/opt/bin/make_figures.r");
}

#[test]
fn three_inputs_end_to_end() {
    let entries = vec![PathEntry::Dir(vec![
        DirChild { path: "in/f1".to_string(), is_file: true },
        DirChild { path: "in/f2".to_string(), is_file: true },
        DirChild { path: "in/f3".to_string(), is_file: true },
    ])];
    let files = discover(&entries).expect("three files");
    let c = config();
    let settings = SketchSettings::from_config(&c);
    let outs = sketch_outputs("out/sketches", &files);
    let jobs = plan_sketch_jobs(settings, "out/sketches", &files, &vec![false; 3]);
    assert_eq!(jobs.len(), 3);
    let mut pool = JobPool::new(jobs.len(), c.num_concurrent);
    loop {
        match pool.next_action() {
            PoolAction::Start(_) => pool.job_started(),
            PoolAction::Wait => pool.job_finished(true),
            PoolAction::Finished => break,
        }
    }
    pool.outcome().expect("all jobs ran");
    let sketches = collect_sketches(files.len(), &outs).expect("three sketches");
    assert_eq!(sketch_list_text(&sketches).lines().count(), 3);
    let raw = "#query\tout/sketches/f1\tout/sketches/f2\tout/sketches/f3\n\
               out/sketches/f1\t0\t0.1\t0.2\n\
               out/sketches/f2\t0.1\t0\t0.3\n\
               out/sketches/f3\t0.2\t0.3\t0\n";
    let aliases = None;
    let m = fix_mash_distance(raw, &aliases);
    let lines: Vec<&str> = m.lines().collect();
    assert_eq!(lines[0], "\tf1\tf2\tf3");
    assert_eq!(lines.len(), 4);
    assert_eq!(lines[1], "f1\t0\t0.1\t0.2");
}

#[test]
fn header_corner_stays_blank_with_empty_name_alias() {
    let t = aliases_from_rows(&rows(&[&["sample_name", "alias"], &["", "X"], &["x", "Y"]]));
    assert_eq!(fix_mash_header("", &t), "");
    assert_eq!(fix_mash_header("#query\tx", &t), "\tY");
    assert_eq!(fix_mash_distance("\tx\nx\t0", &t), "\tY\nY\t0");
}

#[test]
fn skipped_records_are_reported() {
    let r = rows(&[
        &["sample_name", "alias"],
        &["s1.fa"],
        &["s2.fa", "two"],
        &[],
        &["s4.fa", "four"],
    ]);
    assert_eq!(skipped_records(&r), vec![1, 3]);
    let t = aliases_from_rows(&r).expect("valid rows kept");
    assert_eq!(t.len(), 2);
    assert!(skipped_records(&rows(&[&["sample_name", "label"], &["a", "b"]])) == vec![1]);
    assert!(skipped_records(&rows(&[])).is_empty());
    let data = b"sample_name,alias\nbroken\nsampleB.fasta,B\n";
    assert_eq!(skipped_alias_records("a.csv", data).expect("readable"), vec![1]);
}
