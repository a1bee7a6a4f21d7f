//! Planning the sketch jobs: where each input's sketch goes, which inputs
//! still need one, the command each job runs, and the check of what the jobs
//! produced.
use vstd::prelude::*;
use vstd::string::*;

use crate::error::{ErrorKind, MyError};
use crate::matrix::base_of;
use crate::text::{chars_of, lemma_split_nonempty, split_chars, string_of};
use crate::Config;

verus! {

broadcast use vstd::seq_lib::group_to_multiset_ensures;

/// The parameters handed to every sketch job.
#[derive(Clone, Copy, Debug, PartialEq, Eq, Structural)]
pub struct SketchSettings {
    pub num_threads: u32,
    pub kmer_size: u32,
    pub sketch_size: u32,
}

pub const DEFAULT_THREADS: u32 = 12;

pub const DEFAULT_KMER_SIZE: u32 = 21;

pub const DEFAULT_SKETCH_SIZE: u32 = 1000;

/// The settings of a configuration: its thread count where it is between 1
/// and 63, else 12; its k-mer size, else 21; its sketch size, else 1000.
pub open spec fn settings_spec(num_threads: Option<u32>, kmer: Option<u32>, size: Option<u32>) -> SketchSettings {
    SketchSettings {
        num_threads: match num_threads {
            Some(n) => if 0 < n < 64 {
                n
            } else {
                DEFAULT_THREADS
            },
            None => DEFAULT_THREADS,
        },
        kmer_size: match kmer {
            Some(k) => k,
            None => DEFAULT_KMER_SIZE,
        },
        sketch_size: match size {
            Some(s) => s,
            None => DEFAULT_SKETCH_SIZE,
        },
    }
}

impl SketchSettings {
    /// The settings that `config` asks for, with the defaults filled in.
    pub fn from_config(config: &Config) -> (r: SketchSettings)
        ensures
            r == settings_spec(config.num_threads, config.kmer_size, config.sketch_size),
    {
        let num_threads = match config.num_threads {
            Some(n) => if 0 < n && n < 64 {
                n
            } else {
                DEFAULT_THREADS
            },
            None => DEFAULT_THREADS,
        };
        let kmer_size = match config.kmer_size {
            Some(k) => k,
            None => DEFAULT_KMER_SIZE,
        };
        let sketch_size = match config.sketch_size {
            Some(s) => s,
            None => DEFAULT_SKETCH_SIZE,
        };
        SketchSettings { num_threads, kmer_size, sketch_size }
    }
}

/// `name` under the directory `dir`: `name` alone where `dir` is empty, else
/// `dir` and `name` with one `/` between them.
pub open spec fn path_join(dir: Seq<char>, name: Seq<char>) -> Seq<char> {
    if dir.len() == 0 {
        name
    } else if dir.last() == '/' {
        dir + name
    } else {
        dir + seq!['/'] + name
    }
}

/// The path of `name` under the directory `dir`.
pub fn join_path(dir: &str, name: &str) -> (r: String)
    ensures
        r@ == path_join(dir@, name@),
{
    let d = chars_of(dir);
    if d.len() == 0 {
        return String::from_str(name);
    }
    let mut r = String::from_str(dir);
    if d[d.len() - 1] != '/' {
        proof {
            reveal_strlit("/");
        }
        r.append("/");
    }
    r.append(name);
    r
}

/// The character of a decimal digit.
pub open spec fn digit_char(d: nat) -> char {
    if d == 0 {
        '0'
    } else if d == 1 {
        '1'
    } else if d == 2 {
        '2'
    } else if d == 3 {
        '3'
    } else if d == 4 {
        '4'
    } else if d == 5 {
        '5'
    } else if d == 6 {
        '6'
    } else if d == 7 {
        '7'
    } else if d == 8 {
        '8'
    } else {
        '9'
    }
}

/// The decimal numeral of `n`, without leading zeros.
pub open spec fn decimal(n: nat) -> Seq<char>
    decreases n,
{
    if n < 10 {
        seq![digit_char(n)]
    } else {
        decimal(n / 10).push(digit_char(n % 10))
    }
}

fn digit(d: u32) -> (c: char)
    requires
        d < 10,
    ensures
        c == digit_char(d as nat),
{
    if d == 0 {
        '0'
    } else if d == 1 {
        '1'
    } else if d == 2 {
        '2'
    } else if d == 3 {
        '3'
    } else if d == 4 {
        '4'
    } else if d == 5 {
        '5'
    } else if d == 6 {
        '6'
    } else if d == 7 {
        '7'
    } else if d == 8 {
        '8'
    } else {
        '9'
    }
}

fn push_decimal(out: &mut Vec<char>, n: u32)
    ensures
        final(out)@ == old(out)@ + decimal(n as nat),
    decreases n,
{
    if n >= 10 {
        push_decimal(out, n / 10);
    }
    out.push(digit(n % 10));
}

/// The decimal numeral of `n`.
pub fn decimal_string(n: u32) -> (r: String)
    ensures
        r@ == decimal(n as nat),
{
    let mut v: Vec<char> = Vec::new();
    push_decimal(&mut v, n);
    assert(v@ =~= decimal(n as nat));
    string_of(&v)
}

/// Where the sketch of `file` is written, as the sketch tool's output
/// prefix: the file's raw basename under the sketch directory. Aliases are
/// deliberately not used here, so that two samples given the same alias
/// cannot collide; they only relabel the final matrix.
pub open spec fn sketch_prefix(sketch_dir: Seq<char>, file: Seq<char>) -> Seq<char> {
    path_join(sketch_dir, base_of(file))
}

/// The sketch file that the sketch tool writes for that prefix.
pub open spec fn sketch_file(sketch_dir: Seq<char>, file: Seq<char>) -> Seq<char> {
    sketch_prefix(sketch_dir, file) + ".msh"@
}

fn basename_plain(file: &str) -> (r: String)
    ensures
        r@ == base_of(file@),
{
    let f = chars_of(file);
    let parts = split_chars(&f, '/');
    proof {
        lemma_split_nonempty(f@, '/');
    }
    assert(parts@[parts.len() - 1]@ == parts.deep_view()[parts.len() - 1]);
    string_of(&parts[parts.len() - 1])
}

/// The output prefix of the sketch of `file`: its raw basename, not its
/// alias, under the sketch directory.
pub fn sketch_prefix_of(sketch_dir: &str, file: &str) -> (r: String)
    ensures
        r@ == sketch_prefix(sketch_dir@, file@),
{
    let b = basename_plain(file);
    join_path(sketch_dir, b.as_str())
}

/// The path of the sketch file of each input, in order; the caller checks
/// which of them exist already.
pub fn sketch_outputs(sketch_dir: &str, files: &Vec<String>) -> (r: Vec<String>)
    ensures
        r@.len() == files@.len(),
        forall|i: int| 0 <= i < files@.len() ==> #[trigger] r@[i]@ == sketch_file(sketch_dir@, files@[i]@),
{
    let mut out: Vec<String> = Vec::new();
    let mut i: usize = 0;
    while i < files.len()
        invariant
            0 <= i <= files.len(),
            out@.len() == i,
            forall|j: int| 0 <= j < i ==> #[trigger] out@[j]@ == sketch_file(sketch_dir@, files@[j]@),
        decreases files.len() - i,
    {
        let mut p = sketch_prefix_of(sketch_dir, files[i].as_str());
        proof {
            reveal_strlit(".msh");
        }
        p.append(".msh");
        out.push(p);
        i += 1;
    }
    out
}

/// A sketch job: the input, the output prefix and the settings.
pub struct SketchJob {
    pub input: String,
    pub out_prefix: String,
    pub settings: SketchSettings,
}

/// The arguments of the sketch tool's command line for a job.
pub open spec fn job_args(input: Seq<char>, out_prefix: Seq<char>, s: SketchSettings) -> Seq<Seq<char>> {
    seq![
        "sketch"@,
        "-p"@,
        decimal(s.num_threads as nat),
        "-o"@,
        out_prefix,
        "-s"@,
        decimal(s.sketch_size as nat),
        "-k"@,
        decimal(s.kmer_size as nat),
        input,
    ]
}

impl SketchJob {
    /// The arguments that the sketch tool is run with for this job.
    pub fn args(&self) -> (r: Vec<String>)
        ensures
            r.deep_view() == job_args(self.input@, self.out_prefix@, self.settings),
    {
        proof {
            reveal_strlit("sketch");
            reveal_strlit("-p");
            reveal_strlit("-o");
            reveal_strlit("-s");
            reveal_strlit("-k");
        }
        let mut r: Vec<String> = Vec::new();
        r.push(String::from_str("sketch"));
        r.push(String::from_str("-p"));
        r.push(decimal_string(self.settings.num_threads));
        r.push(String::from_str("-o"));
        r.push(self.out_prefix.clone());
        r.push(String::from_str("-s"));
        r.push(decimal_string(self.settings.sketch_size));
        r.push(String::from_str("-k"));
        r.push(decimal_string(self.settings.kmer_size));
        r.push(self.input.clone());
        assert(r.deep_view() =~= job_args(self.input@, self.out_prefix@, self.settings));
        r
    }
}

/// The indices of the inputs whose sketch does not exist yet, in order.
pub open spec fn pending(exists: Seq<bool>) -> Seq<int>
    decreases exists.len(),
{
    if exists.len() == 0 {
        Seq::empty()
    } else {
        let rest = pending(exists.drop_last());
        if exists.last() {
            rest
        } else {
            rest.push(exists.len() - 1)
        }
    }
}

proof fn lemma_pending_bounds(exists: Seq<bool>)
    ensures
        forall|k: int| 0 <= k < pending(exists).len() ==> 0 <= #[trigger] pending(exists)[k] < exists.len(),
    decreases exists.len(),
{
    if exists.len() > 0 {
        let init = exists.drop_last();
        lemma_pending_bounds(init);
        assert forall|k: int| 0 <= k < pending(exists).len() implies 0 <= #[trigger] pending(
            exists,
        )[k] < exists.len() by {
            if k < pending(init).len() {
                assert(pending(exists)[k] == pending(init)[k]);
            }
        }
    }
}

/// The jobs for the inputs whose sketch file does not exist yet: `exists[i]`
/// tells whether the sketch file of `files[i]` exists. One job per such
/// input, in order, writing under the input's raw basename (never its
/// alias) in the sketch directory.
pub fn plan_sketch_jobs(
    settings: SketchSettings,
    sketch_dir: &str,
    files: &Vec<String>,
    exists: &Vec<bool>,
) -> (r: Vec<SketchJob>)
    requires
        exists@.len() == files@.len(),
    ensures
        r@.len() == pending(exists@).len(),
        forall|k: int|
            0 <= k < r@.len() ==> {
                let i = #[trigger] pending(exists@)[k];
                &&& r@[k].input@ == files@[i]@
                &&& r@[k].out_prefix@ == sketch_prefix(sketch_dir@, files@[i]@)
                &&& r@[k].settings == settings
            },
{
    let mut jobs: Vec<SketchJob> = Vec::new();
    let mut i: usize = 0;
    while i < files.len()
        invariant
            0 <= i <= files.len(),
            exists@.len() == files@.len(),
            jobs@.len() == pending(exists@.subrange(0, i as int)).len(),
            forall|k: int|
                0 <= k < jobs@.len() ==> {
                    let j = #[trigger] pending(exists@.subrange(0, i as int))[k];
                    &&& jobs@[k].input@ == files@[j]@
                    &&& jobs@[k].out_prefix@ == sketch_prefix(sketch_dir@, files@[j]@)
                    &&& jobs@[k].settings == settings
                },
        decreases files.len() - i,
    {
        let ghost pre = exists@.subrange(0, i as int);
        let ghost next = exists@.subrange(0, i + 1);
        assert(next.drop_last() =~= pre);
        if !exists[i] {
            let job = SketchJob {
                input: files[i].clone(),
                out_prefix: sketch_prefix_of(sketch_dir, files[i].as_str()),
                settings,
            };
            jobs.push(job);
            assert(pending(next) == pending(pre).push(i as int));
        } else {
            assert(pending(next) == pending(pre));
        }
        i += 1;
    }
    assert(exists@.subrange(0, files.len() as int) =~= exists@);
    jobs
}

/// Resuming is idempotent: where every input's sketch file exists already,
/// no job is planned.
pub proof fn lemma_resume_plans_nothing(exists: Seq<bool>)
    requires
        forall|i: int| 0 <= i < exists.len() ==> exists[i],
    ensures
        pending(exists).len() == 0,
    decreases exists.len(),
{
    if exists.len() > 0 {
        lemma_resume_plans_nothing(exists.drop_last());
    }
}

/// Each input whose sketch is missing gets exactly one job, and no other
/// input gets one.
pub proof fn lemma_pending_exact(exists: Seq<bool>)
    ensures
        forall|k: int| 0 <= k < pending(exists).len() ==> !exists[#[trigger] pending(exists)[k]],
        forall|i: int| 0 <= i < exists.len() && !exists[i] ==> #[trigger] pending(exists).contains(i),
        forall|k1: int, k2: int|
            0 <= k1 < k2 < pending(exists).len() ==> #[trigger] pending(exists)[k1] < #[trigger] pending(exists)[k2],
    decreases exists.len(),
{
    lemma_pending_bounds(exists);
    if exists.len() > 0 {
        let init = exists.drop_last();
        lemma_pending_exact(init);
        lemma_pending_bounds(init);
        let p = pending(init);
        assert forall|k: int| 0 <= k < pending(exists).len() implies !exists[#[trigger] pending(exists)[k]] by {
            if k < p.len() {
                assert(pending(exists)[k] == p[k]);
                assert(init[p[k]] == exists[p[k]]);
            }
        }
        assert forall|i: int| 0 <= i < exists.len() && !exists[i] implies #[trigger] pending(exists).contains(i) by {
            if i < init.len() {
                assert(init[i] == exists[i]);
                assert(p.contains(i));
                let k = choose|k: int| 0 <= k < p.len() && p[k] == i;
                assert(pending(exists)[k] == i);
            } else {
                assert(pending(exists)[pending(exists).len() - 1] == i);
            }
        }
    }
}

/// `a` comes no later than `b` in lexicographic order of characters (the
/// order of `String`'s `Ord`: UTF-8 bytes order as code points do).
pub open spec fn lex_le(a: Seq<char>, b: Seq<char>) -> bool
    decreases a.len(),
{
    if a.len() == 0 {
        true
    } else if b.len() == 0 {
        false
    } else if a[0] != b[0] {
        a[0] < b[0]
    } else {
        lex_le(a.drop_first(), b.drop_first())
    }
}

proof fn lemma_lex_total(a: Seq<char>, b: Seq<char>)
    ensures
        lex_le(a, b) || lex_le(b, a),
    decreases a.len(),
{
    if a.len() > 0 && b.len() > 0 && a[0] == b[0] {
        lemma_lex_total(a.drop_first(), b.drop_first());
    }
}

proof fn lemma_lex_trans(a: Seq<char>, b: Seq<char>, c: Seq<char>)
    requires
        lex_le(a, b),
        lex_le(b, c),
    ensures
        lex_le(a, c),
    decreases a.len(),
{
    if a.len() > 0 && b.len() > 0 && c.len() > 0 && a[0] == b[0] && b[0] == c[0] {
        lemma_lex_trans(a.drop_first(), b.drop_first(), c.drop_first());
    }
}

/// Whether `a` comes no later than `b`.
fn chars_le(a: &Vec<char>, b: &Vec<char>) -> (r: bool)
    ensures
        r == lex_le(a@, b@),
{
    let mut i: usize = 0;
    assert(a@.skip(0) =~= a@);
    assert(b@.skip(0) =~= b@);
    while i < a.len() && i < b.len()
        invariant
            0 <= i <= a.len(),
            i <= b.len(),
            lex_le(a@, b@) == lex_le(a@.skip(i as int), b@.skip(i as int)),
        decreases a.len() - i,
    {
        if a[i] != b[i] {
            assert(a@.skip(i as int)[0] == a[i as int]);
            assert(b@.skip(i as int)[0] == b[i as int]);
            return a[i] < b[i];
        }
        assert(a@.skip(i as int).drop_first() =~= a@.skip(i + 1));
        assert(b@.skip(i as int).drop_first() =~= b@.skip(i + 1));
        i += 1;
    }
    i == a.len()
}

/// The elements are in lexicographic order.
pub open spec fn lex_sorted(s: Seq<Seq<char>>) -> bool {
    forall|p: int, q: int| 0 <= p < q < s.len() ==> lex_le(#[trigger] s[p], #[trigger] s[q])
}

/// The paths in lexicographic order.
pub fn sort_paths(v: &Vec<String>) -> (r: Vec<String>)
    ensures
        r.deep_view().to_multiset() == v.deep_view().to_multiset(),
        lex_sorted(r.deep_view()),
{
    let mut out: Vec<String> = Vec::new();
    let mut keys: Vec<Vec<char>> = Vec::new();
    let mut i: usize = 0;
    while i < v.len()
        invariant
            0 <= i <= v.len(),
            keys.deep_view() == out.deep_view(),
            out.deep_view().to_multiset() == v.deep_view().subrange(0, i as int).to_multiset(),
            lex_sorted(out.deep_view()),
        decreases v.len() - i,
    {
        let x = chars_of(v[i].as_str());
        let mut p: usize = 0;
        while p < keys.len() && chars_le(&keys[p], &x)
            invariant
                0 <= p <= keys.len(),
                keys.deep_view() == out.deep_view(),
                forall|q: int| 0 <= q < p ==> lex_le(#[trigger] keys.deep_view()[q], x@),
            decreases keys.len() - p,
        {
            assert(keys@[p as int]@ == keys.deep_view()[p as int]);
            p += 1;
        }
        let ghost od = out.deep_view();
        assert(p < keys.len() ==> keys@[p as int]@ == keys.deep_view()[p as int]);
        proof {
            if p < od.len() {
                lemma_lex_total(od[p as int], x@);
            }
        }
        out.insert(p, v[i].clone());
        assert(x.deep_view() =~= x@);
        keys.insert(p, x);
        let ghost nd = out.deep_view();
        assert(nd =~= od.insert(p as int, x@));
        assert(keys.deep_view() =~= nd);
        assert(v.deep_view().subrange(0, i + 1) =~= v.deep_view().subrange(0, i as int).push(
            v@[i as int]@,
        ));
        assert forall|a: int, b: int| 0 <= a < b < nd.len() implies lex_le(
            #[trigger] nd[a],
            #[trigger] nd[b],
        ) by {
            if a < p && b < p {
                assert(nd[a] == od[a] && nd[b] == od[b]);
            } else if a < p && b == p {
            } else if a < p && b > p {
                assert(nd[a] == od[a] && nd[b] == od[b - 1]);
                lemma_lex_trans(od[a], x@, od[p as int]);
                if b - 1 > p {
                    lemma_lex_trans(od[a], od[p as int], od[b - 1]);
                }
            } else if a == p {
                assert(nd[b] == od[b - 1]);
                if b - 1 > p {
                    lemma_lex_trans(x@, od[p as int], od[b - 1]);
                }
            } else {
                assert(nd[a] == od[a - 1] && nd[b] == od[b - 1]);
            }
        }
        i += 1;
    }
    assert(v.deep_view().subrange(0, v.len() as int) =~= v.deep_view());
    out
}

/// The sketch files found after the jobs ran, sorted, where there are as
/// many as inputs; else `IncompleteSketching`.
pub fn collect_sketches(num_inputs: usize, found: &Vec<String>) -> (r: Result<Vec<String>, MyError>)
    ensures
        r is Err <==> found@.len() != num_inputs,
        r is Err ==> r->Err_0.kind == ErrorKind::IncompleteSketching,
        r is Ok ==> r->Ok_0.deep_view().to_multiset() == found.deep_view().to_multiset(),
        r is Ok ==> lex_sorted(r->Ok_0.deep_view()),
{
    if found.len() != num_inputs {
        return Err(MyError::with_kind(ErrorKind::IncompleteSketching, "Failed to create all sketches"));
    }
    Ok(sort_paths(found))
}

/// The contents of the sketch list file: each path on a line of its own.
pub open spec fn list_text(paths: Seq<Seq<char>>) -> Seq<char>
    decreases paths.len(),
{
    if paths.len() == 0 {
        Seq::empty()
    } else {
        list_text(paths.drop_last()) + paths.last() + seq!['\n']
    }
}

/// The text of the sketch list file for `paths`.
pub fn sketch_list_text(paths: &Vec<String>) -> (r: String)
    ensures
        r@ == list_text(paths.deep_view()),
{
    let mut r = String::new();
    let mut i: usize = 0;
    while i < paths.len()
        invariant
            0 <= i <= paths.len(),
            r@ == list_text(paths.deep_view().subrange(0, i as int)),
        decreases paths.len() - i,
    {
        assert(paths.deep_view().subrange(0, i + 1).drop_last() =~= paths.deep_view().subrange(
            0,
            i as int,
        ));
        r.append(paths[i].as_str());
        proof {
            reveal_strlit("\n");
        }
        r.append("\n");
        i += 1;
    }
    assert(paths.deep_view().subrange(0, paths.len() as int) =~= paths.deep_view());
    r
}

/// The figure script: `make_figures.r` in the binary directory where one is
/// given, else as a bare name.
pub fn figures_script(bin_dir: &Option<String>) -> (r: String)
    ensures
        bin_dir is Some ==> r@ == path_join(bin_dir->Some_0@, "make_figures.r"@),
        bin_dir is None ==> r@ == "make_figures.r"@,
{
    match bin_dir {
        Some(d) => join_path(d.as_str(), "make_figures.r"),
        None => String::from_str("make_figures.r"),
    }
}

} // verus!
