//! Expanding the query paths into the regular files to sketch. What the file
//! system holds is read by the caller and handed in as entries.
use vstd::prelude::*;

use crate::error::{ErrorKind, MyError};

verus! {

/// A direct child of a directory, with whether it is a regular file.
pub struct DirChild {
    pub path: String,
    pub is_file: bool,
}

/// What a query path turned out to be.
pub enum PathEntry {
    /// A regular file, by its path.
    File(String),
    /// A directory, with its direct children.
    Dir(Vec<DirChild>),
}

/// The paths of the children that are regular files, in order.
pub open spec fn child_files(cs: Seq<DirChild>) -> Seq<Seq<char>>
    decreases cs.len(),
{
    if cs.len() == 0 {
        Seq::empty()
    } else {
        let rest = child_files(cs.drop_last());
        if cs.last().is_file {
            rest.push(cs.last().path@)
        } else {
            rest
        }
    }
}

/// The files that one entry contributes.
pub open spec fn entry_files(e: PathEntry) -> Seq<Seq<char>> {
    match e {
        PathEntry::File(p) => seq![p@],
        PathEntry::Dir(cs) => child_files(cs@),
    }
}

/// The files of all entries, entry after entry.
pub open spec fn files_of(es: Seq<PathEntry>) -> Seq<Seq<char>>
    decreases es.len(),
{
    if es.len() == 0 {
        Seq::empty()
    } else {
        files_of(es.drop_last()) + entry_files(es.last())
    }
}

fn push_children(out: &mut Vec<String>, cs: &Vec<DirChild>)
    ensures
        final(out).deep_view() == old(out).deep_view() + child_files(cs@),
{
    let ghost start = out.deep_view();
    let mut i: usize = 0;
    while i < cs.len()
        invariant
            0 <= i <= cs.len(),
            out.deep_view() == start + child_files(cs@.subrange(0, i as int)),
        decreases cs.len() - i,
    {
        assert(cs@.subrange(0, i + 1).drop_last() =~= cs@.subrange(0, i as int));
        let ghost od = out.deep_view();
        if cs[i].is_file {
            let p = cs[i].path.clone();
            out.push(p);
            assert(out.deep_view() =~= od.push(cs@[i as int].path@));
        }
        i += 1;
        assert(out.deep_view() =~= start + child_files(cs@.subrange(0, i as int)));
    }
    assert(cs@.subrange(0, cs.len() as int) =~= cs@);
}

/// The regular files that the query entries name: a file entry gives itself,
/// a directory entry the children that are regular files (no deeper), in the
/// order given. Fails with `NoInputFiles` where there is none.
pub fn discover(entries: &Vec<PathEntry>) -> (r: Result<Vec<String>, MyError>)
    ensures
        r is Err <==> files_of(entries@).len() == 0,
        r is Err ==> r->Err_0.kind == ErrorKind::NoInputFiles,
        r is Ok ==> r->Ok_0.deep_view() == files_of(entries@),
{
    let mut files: Vec<String> = Vec::new();
    let mut i: usize = 0;
    while i < entries.len()
        invariant
            0 <= i <= entries.len(),
            files.deep_view() == files_of(entries@.subrange(0, i as int)),
        decreases entries.len() - i,
    {
        assert(entries@.subrange(0, i + 1).drop_last() =~= entries@.subrange(0, i as int));
        let ghost od = files.deep_view();
        match &entries[i] {
            PathEntry::File(p) => {
                files.push(p.clone());
                assert(files.deep_view() =~= od + seq![p@]);
            },
            PathEntry::Dir(cs) => {
                push_children(&mut files, cs);
            },
        }
        i += 1;
        assert(files.deep_view() =~= files_of(entries@.subrange(0, i as int)));
    }
    assert(entries@.subrange(0, entries.len() as int) =~= entries@);
    if files.len() == 0 {
        return Err(MyError::with_kind(ErrorKind::NoInputFiles, "No input files"));
    }
    Ok(files)
}

/// For a single directory, discovery gives exactly the paths of its direct
/// children that are regular files, as many as there are such children, and
/// fails exactly when it has none.
pub proof fn lemma_discover_directory(cs: Vec<DirChild>)
    ensures
        forall|p: Seq<char>|
            #[trigger] files_of(seq![PathEntry::Dir(cs)]).contains(p) <==> exists|i: int|
                0 <= i < cs@.len() && cs@[i].is_file && cs@[i].path@ == p,
        files_of(seq![PathEntry::Dir(cs)]).len() == cs@.filter(|c: DirChild| c.is_file).len(),
{
    let es = seq![PathEntry::Dir(cs)];
    assert(es.drop_last() =~= Seq::<PathEntry>::empty());
    assert(files_of(es.drop_last()) =~= Seq::<Seq<char>>::empty());
    assert(es.last() == PathEntry::Dir(cs));
    assert(entry_files(es.last()) == child_files(cs@));
    assert(files_of(es) =~= child_files(cs@));
    lemma_child_files(cs@);
}

proof fn lemma_child_files(cs: Seq<DirChild>)
    ensures
        forall|p: Seq<char>|
            #[trigger] child_files(cs).contains(p) <==> exists|i: int|
                0 <= i < cs.len() && cs[i].is_file && cs[i].path@ == p,
        child_files(cs).len() == cs.filter(|c: DirChild| c.is_file).len(),
    decreases cs.len(),
{
    reveal(Seq::filter);
    if cs.len() > 0 {
        let init = cs.drop_last();
        lemma_child_files(init);
        assert forall|p: Seq<char>| #[trigger] child_files(cs).contains(p) <==> exists|i: int|
            0 <= i < cs.len() && cs[i].is_file && cs[i].path@ == p by {
            if child_files(cs).contains(p) {
                let k = choose|k: int| 0 <= k < child_files(cs).len() && child_files(cs)[k] == p;
                if k < child_files(init).len() {
                    assert(child_files(init).contains(p));
                    let i = choose|i: int| 0 <= i < init.len() && init[i].is_file && init[i].path@ == p;
                    assert(cs[i] == init[i]);
                } else {
                    assert(cs[cs.len() - 1].is_file && cs[cs.len() - 1].path@ == p);
                }
            }
            if exists|i: int| 0 <= i < cs.len() && cs[i].is_file && cs[i].path@ == p {
                let i = choose|i: int| 0 <= i < cs.len() && cs[i].is_file && cs[i].path@ == p;
                if i < init.len() {
                    assert(init[i] == cs[i]);
                    assert(child_files(init).contains(p));
                    let k = choose|k: int| 0 <= k < child_files(init).len() && child_files(init)[k] == p;
                    assert(child_files(cs)[k] == p);
                } else {
                    assert(child_files(cs)[child_files(cs).len() - 1] == p);
                }
            }
        }
    }
}

} // verus!
