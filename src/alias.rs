//! The alias table: sample identifiers mapped to short display names, built
//! from the rows of a delimited text file.
use vstd::prelude::*;
use vstd::string::*;

use crate::error::{ErrorKind, MyError};
use crate::text::{chars_of, split};

verus! {

#[verifier::external_type_specification]
#[verifier::external_body]
pub struct ExCsvError(csv::Error);

/// The records that the csv crate reads from `data` with the given field
/// delimiter, records of any length and no header handling, each as its
/// fields; `None` where it reports an error (a field that is not UTF-8).
pub uninterp spec fn delimited_rows(data: Seq<u8>, delimiter: u8) -> Option<Seq<Seq<Seq<char>>>>;

/// Relies on `csv::ReaderBuilder` (with `delimiter`, `flexible(true)` and
/// `has_headers(false)`) and `csv::Reader::into_records`: the records read
/// from `data`, or the first error met.
#[verifier::external_body]
fn read_delimited(data: &[u8], delimiter: u8) -> (r: Result<Vec<Vec<String>>, csv::Error>)
    requires
        delimiter == 44 || delimiter == 9,
    ensures
        r is Ok <==> delimited_rows(data@, delimiter) is Some,
        r is Ok ==> r->Ok_0.deep_view() == delimited_rows(data@, delimiter)->Some_0,
{
    csv::ReaderBuilder::new()
        .delimiter(delimiter)
        .flexible(true)
        .has_headers(false)
        .from_reader(data)
        .into_records()
        .map(|rec| rec.map(|row| row.iter().map(String::from).collect()))
        .collect()
}

/// The map that inserting `(keys[i], vals[i])` for `i` in `0..n`, in order,
/// builds: a later key replaces an earlier equal one.
pub open spec fn map_of(keys: Seq<Seq<char>>, vals: Seq<Seq<char>>, n: int) -> Map<
    Seq<char>,
    Seq<char>,
>
    decreases n,
{
    if n <= 0 {
        Map::empty()
    } else {
        map_of(keys, vals, n - 1).insert(keys[n - 1], vals[n - 1])
    }
}

proof fn lemma_map_of_tail(keys: Seq<Seq<char>>, vals: Seq<Seq<char>>, j: int, n: int, k: Seq<char>)
    requires
        0 <= j <= n,
        forall|i: int| j <= i < n ==> keys[i] != k,
    ensures
        map_of(keys, vals, n).contains_key(k) == map_of(keys, vals, j).contains_key(k),
        map_of(keys, vals, n).contains_key(k) ==> map_of(keys, vals, n)[k] == map_of(
            keys,
            vals,
            j,
        )[k],
    decreases n - j,
{
    if n > j {
        lemma_map_of_tail(keys, vals, j, n - 1, k);
    }
}

/// A lookup table from sample identifier to alias.
pub struct AliasTable {
    keys: Vec<Vec<char>>,
    vals: Vec<Vec<char>>,
}

impl AliasTable {
    pub closed spec fn wf(&self) -> bool {
        self.keys@.len() == self.vals@.len()
    }

    /// The table as a map.
    pub closed spec fn view(&self) -> Map<Seq<char>, Seq<char>> {
        map_of(self.keys.deep_view(), self.vals.deep_view(), self.keys@.len() as int)
    }

    /// An empty table.
    pub fn new() -> (r: AliasTable)
        ensures
            r.wf(),
            r.view() == Map::<Seq<char>, Seq<char>>::empty(),
    {
        AliasTable { keys: Vec::new(), vals: Vec::new() }
    }

    /// Maps `name` to `alias`, replacing any earlier alias of `name`.
    pub fn insert(&mut self, name: &str, alias: &str)
        requires
            old(self).wf(),
        ensures
            final(self).wf(),
            final(self).view() == old(self).view().insert(name@, alias@),
    {
        let k = chars_of(name);
        let v = chars_of(alias);
        let ghost ok = self.keys.deep_view();
        let ghost ov = self.vals.deep_view();
        assert(k.deep_view() =~= k@);
        assert(v.deep_view() =~= v@);
        self.keys.push(k);
        self.vals.push(v);
        let ghost n = ok.len() as int;
        assert(self.keys.deep_view() =~= ok.push(name@));
        assert(self.vals.deep_view() =~= ov.push(alias@));
        assert(self.keys.deep_view().subrange(0, n) =~= ok);
        proof { lemma_map_of_prefix(ok.push(name@), ov.push(alias@), ok, ov, n); }
    }

    /// The number of aliases.
    pub fn len(&self) -> (r: usize)
        requires
            self.wf(),
        ensures
            r == 0 <==> self.view() =~= Map::<Seq<char>, Seq<char>>::empty(),
    {
        if self.keys.len() > 0 {
            let ghost n = self.keys@.len() as int;
            assert(self.view().contains_key(self.keys.deep_view()[n - 1]));
        }
        self.keys.len()
    }

    /// The alias of the identifier `name`, if the table has one.
    pub fn lookup(&self, name: &Vec<char>) -> (r: Option<&Vec<char>>)
        requires
            self.wf(),
        ensures
            r is Some <==> self.view().contains_key(name@),
            r is Some ==> r->Some_0@ == self.view()[name@],
    {
        let ghost ks = self.keys.deep_view();
        let ghost vs = self.vals.deep_view();
        let mut i: usize = self.keys.len();
        while i > 0
            invariant
                0 <= i <= self.keys@.len(),
                self.wf(),
                ks == self.keys.deep_view(),
                vs == self.vals.deep_view(),
                forall|t: int| i <= t < ks.len() ==> ks[t] != name@,
            decreases i,
        {
            i -= 1;
            if chars_equal(&self.keys[i], name) {
                assert(ks[i as int] == self.keys@[i as int]@);
                proof { lemma_map_of_tail(ks, vs, i + 1, ks.len() as int, name@); }
                assert(vs[i as int] == self.vals@[i as int]@);
                return Some(&self.vals[i]);
            }
            assert(ks[i as int] == self.keys@[i as int]@);
        }
        proof { lemma_map_of_tail(ks, vs, 0, ks.len() as int, name@); }
        None
    }
}

proof fn lemma_map_of_prefix(
    keys: Seq<Seq<char>>,
    vals: Seq<Seq<char>>,
    k0: Seq<Seq<char>>,
    v0: Seq<Seq<char>>,
    n: int,
)
    requires
        0 <= n <= k0.len(),
        n <= v0.len(),
        n <= keys.len(),
        n <= vals.len(),
        forall|i: int| 0 <= i < n ==> keys[i] == k0[i] && vals[i] == v0[i],
    ensures
        map_of(keys, vals, n) == map_of(k0, v0, n),
    decreases n,
{
    if n > 0 {
        lemma_map_of_prefix(keys, vals, k0, v0, n - 1);
    }
}

/// Whether two character vectors are equal.
pub fn chars_equal(a: &Vec<char>, b: &Vec<char>) -> (r: bool)
    ensures
        r == (a@ == b@),
{
    if a.len() != b.len() {
        return false;
    }
    let mut i: usize = 0;
    while i < a.len()
        invariant
            a.len() == b.len(),
            0 <= i <= a.len(),
            forall|t: int| 0 <= t < i ==> a@[t] == b@[t],
        decreases a.len() - i,
    {
        if a[i] != b[i] {
            return false;
        }
        i += 1;
    }
    assert(a@ =~= b@);
    true
}

/// `i` is the first position of `name` in `header`.
pub open spec fn is_first(header: Seq<Seq<char>>, name: Seq<char>, i: int) -> bool {
    &&& 0 <= i < header.len()
    &&& header[i] == name
    &&& forall|j: int| 0 <= j < i ==> header[j] != name
}

/// The first column of `header` named `name`.
pub open spec fn column(header: Seq<Seq<char>>, name: Seq<char>) -> Option<int> {
    if exists|i: int| is_first(header, name, i) {
        Some(choose|i: int| is_first(header, name, i))
    } else {
        None
    }
}

/// The field of `row` in column `c`, where both exist.
pub open spec fn field(row: Seq<Seq<char>>, c: Option<int>) -> Option<Seq<char>> {
    match c {
        Some(i) => if 0 <= i < row.len() {
            Some(row[i])
        } else {
            None
        },
        None => None,
    }
}

/// The (sample name, alias) pair of record `i` (the header is record 0),
/// or `None` where the record lacks either field.
pub open spec fn alias_pair(rows: Seq<Seq<Seq<char>>>, i: int) -> Option<(Seq<char>, Seq<char>)> {
    let header = rows[0];
    match (
        field(rows[i], column(header, "sample_name"@)),
        field(rows[i], column(header, "alias"@)),
    ) {
        (Some(name), Some(alias)) => Some((name, alias)),
        _ => None,
    }
}

/// The aliases that records `1..n` give, a later record replacing an earlier
/// one of the same sample name; records missing a field are skipped.
pub open spec fn aliases_upto(rows: Seq<Seq<Seq<char>>>, n: int) -> Map<Seq<char>, Seq<char>>
    decreases n,
{
    if n <= 1 {
        Map::empty()
    } else {
        let m = aliases_upto(rows, n - 1);
        match alias_pair(rows, n - 1) {
            Some(p) => m.insert(p.0, p.1),
            None => m,
        }
    }
}

/// The aliases that all records of `rows` give.
pub open spec fn alias_map(rows: Seq<Seq<Seq<char>>>) -> Map<Seq<char>, Seq<char>> {
    aliases_upto(rows, rows.len() as int)
}

/// The table that `rows` give, absent where it would be empty.
pub open spec fn alias_table_of(rows: Seq<Seq<Seq<char>>>) -> Option<Map<Seq<char>, Seq<char>>> {
    if alias_map(rows) =~= Map::<Seq<char>, Seq<char>>::empty() {
        None
    } else {
        Some(alias_map(rows))
    }
}

/// The first column of `header` named `name`.
fn find_column(header: &Vec<String>, name: &str) -> (r: Option<usize>)
    ensures
        r is Some <==> column(header.deep_view(), name@) is Some,
        r is Some ==> r->Some_0 as int == column(header.deep_view(), name@)->Some_0,
{
    let ghost h = header.deep_view();
    let target = String::from_str(name);
    let mut i: usize = 0;
    while i < header.len()
        invariant
            0 <= i <= header.len(),
            h == header.deep_view(),
            target@ == name@,
            forall|j: int| 0 <= j < i ==> h[j] != name@,
        decreases header.len() - i,
    {
        if header[i] == target {
            assert(is_first(h, name@, i as int));
            let ghost c = choose|c: int| is_first(h, name@, c);
            assert(c == i) by {
                if c < i {
                    assert(h[c] != name@);
                } else if c > i {
                    assert(h[i as int] != name@);
                }
            }
            return Some(i);
        }
        assert(h[i as int] == header@[i as int]@);
        i += 1;
    }
    assert(!exists|c: int| is_first(h, name@, c)) by {
        if exists|c: int| is_first(h, name@, c) {
            let c = choose|c: int| is_first(h, name@, c);
            assert(h[c] != name@);
        }
    }
    None
}

/// The alias table that `rows` give: record 0 is the header, which must name
/// the columns `sample_name` and `alias`; each later record that has both
/// fields maps its sample name to its alias, and the others are skipped.
/// Absent where no record gave an alias.
pub fn aliases_from_rows(rows: &Vec<Vec<String>>) -> (r: Option<AliasTable>)
    ensures
        r is Some ==> r->Some_0.wf(),
        r is None <==> alias_table_of(rows.deep_view()) is None,
        r is Some ==> r->Some_0.view() == alias_map(rows.deep_view()),
{
    let ghost rs = rows.deep_view();
    let mut table = AliasTable::new();
    if rows.len() == 0 {
        return None;
    }
    assert(rs[0] == rows@[0].deep_view());
    let name_col = find_column(&rows[0], "sample_name");
    let alias_col = find_column(&rows[0], "alias");
    let mut i: usize = 1;
    while i < rows.len()
        invariant
            1 <= i <= rows.len(),
            rs == rows.deep_view(),
            rs[0] == rows@[0].deep_view(),
            table.wf(),
            table.view() == aliases_upto(rs, i as int),
            name_col is Some <==> column(rs[0], "sample_name"@) is Some,
            name_col is Some ==> name_col->Some_0 as int == column(rs[0], "sample_name"@)->Some_0,
            alias_col is Some <==> column(rs[0], "alias"@) is Some,
            alias_col is Some ==> alias_col->Some_0 as int == column(rs[0], "alias"@)->Some_0,
        decreases rows.len() - i,
    {
        let row = &rows[i];
        assert(rs[i as int] == row.deep_view());
        match (name_col, alias_col) {
            (Some(n), Some(a)) => {
                if n < row.len() && a < row.len() {
                    assert(row.deep_view()[n as int] == row@[n as int]@);
                    assert(row.deep_view()[a as int] == row@[a as int]@);
                    table.insert(row[n].as_str(), row[a].as_str());
                }
            },
            _ => {},
        }
        i += 1;
    }
    if table.len() == 0 {
        None
    } else {
        Some(table)
    }
}

/// The records (by index; the header is record 0) that lack the sample name
/// or the alias among records `1..n`, in order.
pub open spec fn skipped_upto(rows: Seq<Seq<Seq<char>>>, n: int) -> Seq<int>
    decreases n,
{
    if n <= 1 {
        Seq::empty()
    } else {
        let r = skipped_upto(rows, n - 1);
        if alias_pair(rows, n - 1) is None {
            r.push(n - 1)
        } else {
            r
        }
    }
}

/// The records of `rows` that give no alias, in order.
pub open spec fn skipped_rows(rows: Seq<Seq<Seq<char>>>) -> Seq<int> {
    skipped_upto(rows, rows.len() as int)
}

/// The indices of the records that `aliases_from_rows` skips because they
/// lack the sample name or the alias, in order; the caller warns of each.
pub fn skipped_records(rows: &Vec<Vec<String>>) -> (r: Vec<usize>)
    ensures
        r@.len() == skipped_rows(rows.deep_view()).len(),
        forall|k: int| 0 <= k < r@.len() ==> r@[k] as int == #[trigger] skipped_rows(rows.deep_view())[k],
{
    let ghost rs = rows.deep_view();
    let mut out: Vec<usize> = Vec::new();
    if rows.len() == 0 {
        return out;
    }
    assert(rs[0] == rows@[0].deep_view());
    let name_col = find_column(&rows[0], "sample_name");
    let alias_col = find_column(&rows[0], "alias");
    let mut i: usize = 1;
    while i < rows.len()
        invariant
            1 <= i <= rows.len(),
            rs == rows.deep_view(),
            rs[0] == rows@[0].deep_view(),
            out@.len() == skipped_upto(rs, i as int).len(),
            forall|k: int| 0 <= k < out@.len() ==> out@[k] as int == #[trigger] skipped_upto(rs, i as int)[k],
            name_col is Some <==> column(rs[0], "sample_name"@) is Some,
            name_col is Some ==> name_col->Some_0 as int == column(rs[0], "sample_name"@)->Some_0,
            alias_col is Some <==> column(rs[0], "alias"@) is Some,
            alias_col is Some ==> alias_col->Some_0 as int == column(rs[0], "alias"@)->Some_0,
        decreases rows.len() - i,
    {
        let row = &rows[i];
        assert(rs[i as int] == row.deep_view());
        let usable = match (name_col, alias_col) {
            (Some(n), Some(a)) => n < row.len() && a < row.len(),
            _ => false,
        };
        assert(usable == (alias_pair(rs, i as int) is Some));
        let ghost before = skipped_upto(rs, i as int);
        if !usable {
            out.push(i);
            assert(skipped_upto(rs, i + 1) == before.push(i as int));
        } else {
            assert(skipped_upto(rs, i + 1) == before);
        }
        i += 1;
    }
    out
}

/// The field delimiter of an alias file: a comma where the file's name (its
/// last `/`-separated segment) has the extension `csv`, a tab otherwise
/// (44 and 9 in ASCII).
pub open spec fn delimiter_of(path: Seq<char>) -> u8 {
    let name = split(path, '/').last();
    if name.len() >= 5 && name.subrange(name.len() - 4, name.len() as int) == ".csv"@ {
        44u8
    } else {
        9u8
    }
}

/// The field delimiter for the alias file at `path`.
pub fn alias_delimiter(path: &str) -> (r: u8)
    ensures
        r == delimiter_of(path@),
{
    let cs = chars_of(path);
    let parts = crate::text::split_chars(&cs, '/');
    proof { crate::text::lemma_split_nonempty(cs@, '/'); }
    let name = &parts[parts.len() - 1];
    assert(name@ == split(path@, '/').last());
    let n = name.len();
    proof {
        reveal_strlit(".csv");
    }
    if n >= 5 && name[n - 4] == '.' && name[n - 3] == 'c' && name[n - 2] == 's' && name[n - 1]
        == 'v' {
        assert(name@.subrange(n - 4, n as int) =~= ".csv"@);
        44u8
    } else {
        assert(n >= 5 ==> name@.subrange(n - 4, n as int)[0] == name@[n - 4]);
        assert(n >= 5 ==> name@.subrange(n - 4, n as int)[1] == name@[n - 3]);
        assert(n >= 5 ==> name@.subrange(n - 4, n as int)[2] == name@[n - 2]);
        assert(n >= 5 ==> name@.subrange(n - 4, n as int)[3] == name@[n - 1]);
        9u8
    }
}

/// Loads the alias table from the contents `data` of the file at `path`.
/// Fails with `AliasFileUnreadable` where the contents cannot be read as
/// delimited records; else gives the table of `aliases_from_rows`.
pub fn load_aliases(path: &str, data: &[u8]) -> (r: Result<Option<AliasTable>, MyError>)
    ensures
        r is Err <==> delimited_rows(data@, delimiter_of(path@)) is None,
        r is Err ==> r->Err_0.kind == ErrorKind::AliasFileUnreadable,
        r is Ok ==> ({
            let rows = delimited_rows(data@, delimiter_of(path@))->Some_0;
            &&& (r->Ok_0 is None <==> alias_table_of(rows) is None)
            &&& (r->Ok_0 is Some ==> r->Ok_0->Some_0.wf() && r->Ok_0->Some_0.view() == alias_map(rows))
        }),
{
    let delimiter = alias_delimiter(path);
    match read_delimited(data, delimiter) {
        Ok(rows) => Ok(aliases_from_rows(&rows)),
        Err(_) => Err(MyError::with_kind(ErrorKind::AliasFileUnreadable, "Failed to read the alias file")),
    }
}

/// The records of the alias file at `path`, with contents `data`, that the
/// load skips because they lack the sample name or the alias; fails as
/// `load_aliases` does.
pub fn skipped_alias_records(path: &str, data: &[u8]) -> (r: Result<Vec<usize>, MyError>)
    ensures
        r is Err <==> delimited_rows(data@, delimiter_of(path@)) is None,
        r is Err ==> r->Err_0.kind == ErrorKind::AliasFileUnreadable,
        r is Ok ==> ({
            let rows = delimited_rows(data@, delimiter_of(path@))->Some_0;
            &&& r->Ok_0@.len() == skipped_rows(rows).len()
            &&& forall|k: int| 0 <= k < r->Ok_0@.len() ==> r->Ok_0@[k] as int == #[trigger] skipped_rows(rows)[k]
        }),
{
    let delimiter = alias_delimiter(path);
    match read_delimited(data, delimiter) {
        Ok(rows) => Ok(skipped_records(&rows)),
        Err(_) => Err(MyError::with_kind(ErrorKind::AliasFileUnreadable, "Failed to read the alias file")),
    }
}

/// A record that lacks the alias field is skipped: the aliases read so far
/// stay as they were, and reading goes on with the next record.
pub proof fn lemma_row_without_alias_skipped(rows: Seq<Seq<Seq<char>>>, i: int)
    requires
        1 <= i < rows.len(),
        field(rows[i], column(rows[0], "alias"@)) is None,
    ensures
        aliases_upto(rows, i + 1) == aliases_upto(rows, i),
{
}

/// Where no record has both fields, there is no alias table.
pub proof fn lemma_no_usable_rows(rows: Seq<Seq<Seq<char>>>)
    requires
        forall|i: int| 1 <= i < rows.len() ==> #[trigger] alias_pair(rows, i) is None,
    ensures
        alias_table_of(rows) is None,
{
    lemma_upto_empty(rows, rows.len() as int);
}

proof fn lemma_upto_empty(rows: Seq<Seq<Seq<char>>>, n: int)
    requires
        n <= rows.len(),
        forall|i: int| 1 <= i < rows.len() ==> #[trigger] alias_pair(rows, i) is None,
    ensures
        aliases_upto(rows, n) =~= Map::<Seq<char>, Seq<char>>::empty(),
    decreases n,
{
    if n > 1 {
        lemma_upto_empty(rows, n - 1);
        assert(alias_pair(rows, n - 1) is None);
    }
}

/// A record that has both fields is kept: the alias table is present and
/// maps the record's sample name, even where other records were skipped.
pub proof fn lemma_usable_row_kept(rows: Seq<Seq<Seq<char>>>, i: int)
    requires
        1 <= i < rows.len(),
        alias_pair(rows, i) is Some,
    ensures
        alias_map(rows).contains_key(alias_pair(rows, i)->Some_0.0),
        alias_table_of(rows) is Some,
{
    lemma_upto_keeps_key(rows, i, rows.len() as int);
}

proof fn lemma_upto_keeps_key(rows: Seq<Seq<Seq<char>>>, i: int, n: int)
    requires
        1 <= i < n <= rows.len(),
        alias_pair(rows, i) is Some,
    ensures
        aliases_upto(rows, n).contains_key(alias_pair(rows, i)->Some_0.0),
    decreases n,
{
    if n > i + 1 {
        lemma_upto_keeps_key(rows, i, n - 1);
    }
}

} // verus!
