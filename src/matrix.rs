//! Normalising the tab-separated distance matrix that the comparison tool
//! prints: row and column labels become basenames or their aliases, while the
//! distances and the shape stay as they are.
use vstd::prelude::*;

use crate::alias::{alias_pair, alias_table_of, lemma_no_usable_rows, AliasTable};
use crate::text::{
    chars_of, free_of, join, join_chars, lemma_join_free, lemma_split_join,
    lemma_split_keeps_free, lemma_split_nonempty, lemma_split_pieces_free, split, split_chars,
    string_of,
};

verus! {

/// The aliases as a map, where there are any.
pub open spec fn aliases_view(aliases: &Option<AliasTable>) -> Option<Map<Seq<char>, Seq<char>>> {
    match aliases {
        Some(t) => Some(t.view()),
        None => None,
    }
}

/// The alias table, where there is one, is well formed.
pub open spec fn aliases_wf(aliases: &Option<AliasTable>) -> bool {
    aliases is Some ==> aliases->Some_0.wf()
}

/// The last `/`-separated segment of `f`.
pub open spec fn base_of(f: Seq<char>) -> Seq<char> {
    split(f, '/').last()
}

/// The label that `f` gets: the alias of its basename where the table has
/// one, else the basename itself.
pub open spec fn label_of(f: Seq<char>, a: Option<Map<Seq<char>, Seq<char>>>) -> Seq<char> {
    match a {
        Some(m) => if m.contains_key(base_of(f)) {
            m[base_of(f)]
        } else {
            base_of(f)
        },
        None => base_of(f),
    }
}

/// The header fields rewritten: the first one (the corner cell) always
/// blank, every later one relabelled.
pub open spec fn header_fields(flds: Seq<Seq<char>>, a: Option<Map<Seq<char>, Seq<char>>>) -> Seq<
    Seq<char>,
> {
    Seq::new(
        flds.len(),
        |j: int|
            if j == 0 {
                Seq::<char>::empty()
            } else {
                label_of(flds[j], a)
            },
    )
}

/// The fields of a data row rewritten: the first one relabelled, the rest kept.
pub open spec fn line_fields(flds: Seq<Seq<char>>, a: Option<Map<Seq<char>, Seq<char>>>) -> Seq<
    Seq<char>,
> {
    flds.update(0, label_of(flds[0], a))
}

pub open spec fn fixed_header(line: Seq<char>, a: Option<Map<Seq<char>, Seq<char>>>) -> Seq<char> {
    join(header_fields(split(line, '\t'), a), '\t')
}

pub open spec fn fixed_line(line: Seq<char>, a: Option<Map<Seq<char>, Seq<char>>>) -> Seq<char> {
    join(line_fields(split(line, '\t'), a), '\t')
}

/// The lines of the normalised matrix: line 0 as a header, the others as
/// data rows.
pub open spec fn fixed_lines(lines: Seq<Seq<char>>, a: Option<Map<Seq<char>, Seq<char>>>) -> Seq<
    Seq<char>,
> {
    Seq::new(
        lines.len(),
        |i: int|
            if i == 0 {
                fixed_header(lines[i], a)
            } else {
                fixed_line(lines[i], a)
            },
    )
}

/// The normalised matrix.
pub open spec fn fixed_matrix(s: Seq<char>, a: Option<Map<Seq<char>, Seq<char>>>) -> Seq<char> {
    join(fixed_lines(split(s, '\n'), a), '\n')
}

fn copy_chars(v: &Vec<char>) -> (r: Vec<char>)
    ensures
        r@ == v@,
{
    let mut r: Vec<char> = Vec::new();
    let mut i: usize = 0;
    while i < v.len()
        invariant
            0 <= i <= v.len(),
            r@ == v@.subrange(0, i as int),
        decreases v.len() - i,
    {
        r.push(v[i]);
        i += 1;
        assert(r@ =~= v@.subrange(0, i as int));
    }
    assert(v@.subrange(0, v.len() as int) =~= v@);
    r
}

fn label_chars(f: &Vec<char>, aliases: &Option<AliasTable>) -> (r: Vec<char>)
    requires
        aliases_wf(aliases),
    ensures
        r@ == label_of(f@, aliases_view(aliases)),
{
    let parts = split_chars(f, '/');
    proof {
        lemma_split_nonempty(f@, '/');
    }
    let name = &parts[parts.len() - 1];
    assert(name@ == parts.deep_view()[parts.len() - 1]);
    match aliases {
        Some(t) => match t.lookup(name) {
            Some(v) => copy_chars(v),
            None => copy_chars(name),
        },
        None => copy_chars(name),
    }
}

/// The label of `filename`: its last `/`-separated segment, replaced by its
/// alias where the table has one.
pub fn basename(filename: &str, aliases: &Option<AliasTable>) -> (r: String)
    requires
        aliases_wf(aliases),
    ensures
        r@ == label_of(filename@, aliases_view(aliases)),
{
    let f = chars_of(filename);
    let l = label_chars(&f, aliases);
    string_of(&l)
}

fn header_chars(line: &Vec<char>, aliases: &Option<AliasTable>) -> (r: Vec<char>)
    requires
        aliases_wf(aliases),
    ensures
        r@ == fixed_header(line@, aliases_view(aliases)),
{
    let flds = split_chars(line, '\t');
    let ghost want = header_fields(flds.deep_view(), aliases_view(aliases));
    let blank: Vec<char> = Vec::new();
    let mut out: Vec<Vec<char>> = Vec::new();
    let mut j: usize = 0;
    while j < flds.len()
        invariant
            0 <= j <= flds.len(),
            aliases_wf(aliases),
            blank@ == Seq::<char>::empty(),
            want == header_fields(flds.deep_view(), aliases_view(aliases)),
            out.deep_view() == want.subrange(0, j as int),
        decreases flds.len() - j,
    {
        let l = if j == 0 {
            copy_chars(&blank)
        } else {
            assert(flds@[j as int]@ == flds.deep_view()[j as int]);
            label_chars(&flds[j], aliases)
        };
        let ghost od = out.deep_view();
        assert(l.deep_view() =~= l@);
        out.push(l);
        j += 1;
        assert(out.deep_view() =~= od.push(l@));
        assert(out.deep_view() =~= want.subrange(0, j as int));
    }
    assert(want.subrange(0, flds.len() as int) =~= want);
    join_chars(&out, '\t')
}

fn line_chars(line: &Vec<char>, aliases: &Option<AliasTable>) -> (r: Vec<char>)
    requires
        aliases_wf(aliases),
    ensures
        r@ == fixed_line(line@, aliases_view(aliases)),
{
    let mut flds = split_chars(line, '\t');
    proof {
        lemma_split_nonempty(line@, '\t');
    }
    let ghost fd = flds.deep_view();
    assert(flds@[0]@ == fd[0]);
    let l = label_chars(&flds[0], aliases);
    assert(l.deep_view() =~= l@);
    let ghost old_flds = flds@;
    flds.set(0, l);
    assert forall|k: int| 0 < k < fd.len() implies flds.deep_view()[k] == fd[k] by {
        assert(flds@[k] == old_flds[k]);
    }
    assert(flds.deep_view() =~= line_fields(fd, aliases_view(aliases)));
    join_chars(&flds, '\t')
}

fn matrix_chars(s: &Vec<char>, aliases: &Option<AliasTable>) -> (r: Vec<char>)
    requires
        aliases_wf(aliases),
    ensures
        r@ == fixed_matrix(s@, aliases_view(aliases)),
{
    let lines = split_chars(s, '\n');
    let ghost want = fixed_lines(lines.deep_view(), aliases_view(aliases));
    let mut out: Vec<Vec<char>> = Vec::new();
    let mut i: usize = 0;
    while i < lines.len()
        invariant
            0 <= i <= lines.len(),
            aliases_wf(aliases),
            want == fixed_lines(lines.deep_view(), aliases_view(aliases)),
            out.deep_view() == want.subrange(0, i as int),
        decreases lines.len() - i,
    {
        assert(lines@[i as int]@ == lines.deep_view()[i as int]);
        let l = if i == 0 {
            header_chars(&lines[i], aliases)
        } else {
            line_chars(&lines[i], aliases)
        };
        let ghost od = out.deep_view();
        assert(l.deep_view() =~= l@);
        out.push(l);
        i += 1;
        assert(out.deep_view() =~= od.push(l@));
        assert(out.deep_view() =~= want.subrange(0, i as int));
    }
    assert(want.subrange(0, lines.len() as int) =~= want);
    join_chars(&out, '\n')
}

/// The header line of the matrix with its first field (the corner cell)
/// blank, whatever it held and whatever the aliases, and every later field
/// relabelled.
pub fn fix_mash_header(line: &str, aliases: &Option<AliasTable>) -> (r: String)
    requires
        aliases_wf(aliases),
    ensures
        r@ == fixed_header(line@, aliases_view(aliases)),
{
    let l = chars_of(line);
    let out = header_chars(&l, aliases);
    string_of(&out)
}

/// A data row of the matrix with its row label relabelled and its distances
/// kept.
pub fn fix_mash_line(line: &str, aliases: &Option<AliasTable>) -> (r: String)
    requires
        aliases_wf(aliases),
    ensures
        r@ == fixed_line(line@, aliases_view(aliases)),
{
    let l = chars_of(line);
    let out = line_chars(&l, aliases);
    string_of(&out)
}

/// The whole matrix normalised: line 0 as a header, every later line as a
/// data row.
pub fn fix_mash_distance(s: &str, aliases: &Option<AliasTable>) -> (r: String)
    requires
        aliases_wf(aliases),
    ensures
        r@ == fixed_matrix(s@, aliases_view(aliases)),
{
    let l = chars_of(s);
    let out = matrix_chars(&l, aliases);
    string_of(&out)
}

/// No alias holds a tab or a line break.
pub open spec fn aliases_plain(a: Option<Map<Seq<char>, Seq<char>>>) -> bool {
    a is Some ==> forall|k: Seq<char>|
        #[trigger] a->Some_0.contains_key(k) ==> free_of(a->Some_0[k], '\t') && free_of(
            a->Some_0[k],
            '\n',
        )
}

proof fn lemma_label_free(f: Seq<char>, a: Option<Map<Seq<char>, Seq<char>>>)
    requires
        aliases_plain(a),
        free_of(f, '\t'),
        free_of(f, '\n'),
    ensures
        free_of(label_of(f, a), '\t'),
        free_of(label_of(f, a), '\n'),
{
    lemma_split_nonempty(f, '/');
    lemma_split_keeps_free(f, '/', '\t');
    lemma_split_keeps_free(f, '/', '\n');
    let n = split(f, '/').len() - 1;
    assert(free_of(split(f, '/')[n], '\t'));
    assert(free_of(split(f, '/')[n], '\n'));
}

/// Facts on one line of the matrix, free of line breaks, as row `i`.
proof fn lemma_line_shape(line: Seq<char>, a: Option<Map<Seq<char>, Seq<char>>>, header: bool)
    requires
        aliases_plain(a),
        free_of(line, '\n'),
    ensures
        header ==> free_of(fixed_header(line, a), '\n'),
        header ==> split(fixed_header(line, a), '\t').len() == split(line, '\t').len(),
        header ==> split(fixed_header(line, a), '\t')[0] == Seq::<char>::empty(),
        header ==> forall|j: int|
            1 <= j < split(line, '\t').len() ==> #[trigger] split(fixed_header(line, a), '\t')[j]
                == label_of(split(line, '\t')[j], a),
        !header ==> free_of(fixed_line(line, a), '\n'),
        !header ==> split(fixed_line(line, a), '\t').len() == split(line, '\t').len(),
        !header ==> forall|j: int|
            1 <= j < split(line, '\t').len() ==> #[trigger] split(fixed_line(line, a), '\t')[j]
                == split(line, '\t')[j],
        !header ==> split(fixed_line(line, a), '\t')[0] == label_of(split(line, '\t')[0], a),
{
    let fi = split(line, '\t');
    lemma_split_nonempty(line, '\t');
    lemma_split_pieces_free(line, '\t');
    lemma_split_keeps_free(line, '\t', '\n');
    let fields = if header {
        header_fields(fi, a)
    } else {
        line_fields(fi, a)
    };
    assert(free_of(Seq::<char>::empty(), '\t'));
    assert(free_of(Seq::<char>::empty(), '\n'));
    assert forall|k: int| 0 <= k < fields.len() implies free_of(#[trigger] fields[k], '\t')
        && free_of(fields[k], '\n') by {
        assert(free_of(fi[k], '\t'));
        assert(free_of(fi[k], '\n'));
        if header {
            if k > 0 {
                lemma_label_free(fi[k], a);
            }
        } else {
            lemma_label_free(fi[k], a);
        }
    }
    lemma_split_join(fields, '\t');
    lemma_join_free(fields, '\t', '\n');
}

/// Normalising keeps the shape of a tab-separated matrix: the result has as
/// many lines as the input, each line as many tab-separated fields as the
/// line it comes from; the header's first field (the corner cell) is blank and
/// its other fields are the labels of the input's, and a data row changes in
/// its first field (the label) alone. This holds where no alias holds a tab
/// or a line break.
pub proof fn lemma_normalize_keeps_shape(s: Seq<char>, a: Option<Map<Seq<char>, Seq<char>>>)
    requires
        aliases_plain(a),
    ensures
        ({
            let ins = split(s, '\n');
            let outs = split(fixed_matrix(s, a), '\n');
            &&& outs.len() == ins.len()
            &&& forall|i: int|
                0 <= i < ins.len() ==> #[trigger] split(outs[i], '\t').len() == split(
                    ins[i],
                    '\t',
                ).len()
            &&& split(outs[0], '\t')[0] == Seq::<char>::empty()
            &&& forall|j: int|
                1 <= j < split(ins[0], '\t').len() ==> #[trigger] split(outs[0], '\t')[j]
                    == label_of(split(ins[0], '\t')[j], a)
            &&& forall|i: int, j: int|
                1 <= i < ins.len() && 1 <= j < split(ins[i], '\t').len() ==> #[trigger] split(
                    outs[i],
                    '\t',
                )[j] == split(ins[i], '\t')[j]
            &&& forall|i: int|
                1 <= i < ins.len() ==> #[trigger] split(outs[i], '\t')[0] == label_of(
                    split(ins[i], '\t')[0],
                    a,
                )
        }),
{
    let ins = split(s, '\n');
    let lines = fixed_lines(ins, a);
    lemma_split_nonempty(s, '\n');
    lemma_split_pieces_free(s, '\n');
    assert forall|i: int| 0 <= i < lines.len() implies free_of(#[trigger] lines[i], '\n') by {
        assert(free_of(ins[i], '\n'));
        lemma_line_shape(ins[i], a, i == 0);
    }
    lemma_split_join(lines, '\n');
    let outs = split(fixed_matrix(s, a), '\n');
    assert(outs == lines);
    assert forall|i: int| 0 <= i < ins.len() implies #[trigger] split(outs[i], '\t').len()
        == split(ins[i], '\t').len() by {
        assert(free_of(ins[i], '\n'));
        lemma_line_shape(ins[i], a, i == 0);
    }
    assert(free_of(ins[0], '\n'));
    lemma_line_shape(ins[0], a, true);
    assert(outs[0] == fixed_header(ins[0], a));
    assert forall|j: int| 1 <= j < split(ins[0], '\t').len() implies #[trigger] split(
        outs[0],
        '\t',
    )[j] == label_of(split(ins[0], '\t')[j], a) by {
        assert(split(outs[0], '\t')[j] == split(fixed_header(ins[0], a), '\t')[j]);
    }
    assert forall|i: int, j: int|
        1 <= i < ins.len() && 1 <= j < split(ins[i], '\t').len() implies #[trigger] split(
        outs[i],
        '\t',
    )[j] == split(ins[i], '\t')[j] by {
        assert(free_of(ins[i], '\n'));
        lemma_line_shape(ins[i], a, false);
    }
    assert forall|i: int| 1 <= i < ins.len() implies #[trigger] split(outs[i], '\t')[0]
        == label_of(split(ins[i], '\t')[0], a) by {
        assert(free_of(ins[i], '\n'));
        lemma_line_shape(ins[i], a, false);
    }
}

/// Where the alias rows give no usable record, the table is absent and every
/// label is the plain basename.
pub proof fn lemma_no_usable_rows_keeps_basenames(rows: Seq<Seq<Seq<char>>>, f: Seq<char>)
    requires
        forall|i: int| 1 <= i < rows.len() ==> #[trigger] alias_pair(rows, i) is None,
    ensures
        alias_table_of(rows) is None,
        label_of(f, alias_table_of(rows)) == base_of(f),
{
    lemma_no_usable_rows(rows);
}

} // verus!
