//! Splitting and joining character sequences on a one-character separator,
//! stated over `Seq<char>` and carried out on `Vec<char>`.
use vstd::prelude::*;
use vstd::std_specs::iter::IteratorSpec;

verus! {

/// The pieces of `s` between occurrences of `d`, as `str::split` with a
/// one-character pattern gives them: always at least one piece.
pub open spec fn split(s: Seq<char>, d: char) -> Seq<Seq<char>>
    decreases s.len(),
{
    if s.len() == 0 {
        seq![Seq::<char>::empty()]
    } else {
        let rest = split(s.drop_last(), d);
        if s.last() == d {
            rest.push(Seq::<char>::empty())
        } else {
            rest.update(rest.len() - 1, rest.last().push(s.last()))
        }
    }
}

/// The pieces of `parts` with one `d` between each two neighbours.
pub open spec fn join(parts: Seq<Seq<char>>, d: char) -> Seq<char>
    decreases parts.len(),
{
    if parts.len() == 0 {
        Seq::<char>::empty()
    } else if parts.len() == 1 {
        parts[0]
    } else {
        join(parts.drop_last(), d) + seq![d] + parts.last()
    }
}

/// `s` holds no occurrence of `d`.
pub open spec fn free_of(s: Seq<char>, d: char) -> bool {
    forall|i: int| 0 <= i < s.len() ==> s[i] != d
}

pub proof fn lemma_split_nonempty(s: Seq<char>, d: char)
    ensures
        split(s, d).len() >= 1,
    decreases s.len(),
{
    if s.len() > 0 {
        lemma_split_nonempty(s.drop_last(), d);
    }
}

/// Appending characters other than `d` only lengthens the last piece.
pub proof fn lemma_split_append_free(a: Seq<char>, b: Seq<char>, d: char)
    requires
        free_of(b, d),
    ensures
        split(a + b, d) == split(a, d).update(
            split(a, d).len() - 1,
            split(a, d).last() + b,
        ),
    decreases b.len(),
{
    lemma_split_nonempty(a, d);
    if b.len() == 0 {
        assert(a + b =~= a);
        assert(split(a, d).last() + b =~= split(a, d).last());
        assert(split(a, d).update(split(a, d).len() - 1, split(a, d).last()) =~= split(a, d));
    } else {
        let b0 = b.drop_last();
        assert(free_of(b0, d));
        lemma_split_append_free(a, b0, d);
        assert((a + b).drop_last() =~= a + b0);
        assert((a + b).last() == b.last());
        lemma_split_nonempty(a + b0, d);
        assert((split(a, d).last() + b0).push(b.last()) =~= split(a, d).last() + b);
        assert(split(a + b, d) =~= split(a, d).update(
            split(a, d).len() - 1,
            split(a, d).last() + b,
        ));
    }
}

/// A piece free of `d` splits into itself.
pub proof fn lemma_split_free(s: Seq<char>, d: char)
    requires
        free_of(s, d),
    ensures
        split(s, d) == seq![s],
{
    lemma_split_append_free(Seq::<char>::empty(), s, d);
    assert(Seq::<char>::empty() + s =~= s);
    assert(split(Seq::<char>::empty(), d) == seq![Seq::<char>::empty()]);
    assert(Seq::<char>::empty() + s =~= s);
    assert(seq![Seq::<char>::empty()].update(0, Seq::<char>::empty() + s) =~= seq![s]);
}

/// Splitting undoes joining when no piece holds the separator.
pub proof fn lemma_split_join(parts: Seq<Seq<char>>, d: char)
    requires
        parts.len() >= 1,
        forall|k: int| 0 <= k < parts.len() ==> free_of(#[trigger] parts[k], d),
    ensures
        split(join(parts, d), d) == parts,
    decreases parts.len(),
{
    if parts.len() == 1 {
        lemma_split_free(parts[0], d);
        assert(seq![parts[0]] =~= parts);
    } else {
        let init = parts.drop_last();
        assert forall|k: int| 0 <= k < init.len() implies free_of(#[trigger] init[k], d) by {
            assert(init[k] == parts[k]);
        }
        lemma_split_join(init, d);
        let pre = join(init, d) + seq![d];
        assert(pre.drop_last() =~= join(init, d));
        assert(split(pre, d) == init.push(Seq::<char>::empty()));
        assert(free_of(parts[parts.len() - 1], d));
        lemma_split_append_free(pre, parts.last(), d);
        assert(Seq::<char>::empty() + parts.last() =~= parts.last());
        assert(init.push(Seq::<char>::empty()).update(init.len() as int, parts.last()) =~= parts);
    }
}

/// Every piece of a split is free of the separator.
pub proof fn lemma_split_pieces_free(s: Seq<char>, d: char)
    ensures
        forall|k: int| 0 <= k < split(s, d).len() ==> free_of(#[trigger] split(s, d)[k], d),
    decreases s.len(),
{
    if s.len() > 0 {
        lemma_split_pieces_free(s.drop_last(), d);
        lemma_split_nonempty(s.drop_last(), d);
        let rest = split(s.drop_last(), d);
        if s.last() != d {
            let l = rest.last().push(s.last());
            assert(free_of(rest[rest.len() - 1], d));
            assert(free_of(l, d)) by {
                assert forall|i: int| 0 <= i < l.len() implies l[i] != d by {
                    if i < l.len() - 1 {
                        assert(l[i] == rest[rest.len() - 1][i]);
                    }
                }
            }
        }
        assert forall|k: int| 0 <= k < split(s, d).len() implies free_of(
            #[trigger] split(s, d)[k],
            d,
        ) by {
            if k < rest.len() && !(s.last() != d && k == rest.len() - 1) {
                assert(split(s, d)[k] == rest[k]);
            }
        }
    }
}

/// The pieces of `s` hold no character that `s` does not hold.
pub proof fn lemma_split_keeps_free(s: Seq<char>, d: char, c: char)
    requires
        free_of(s, c),
    ensures
        forall|k: int| 0 <= k < split(s, d).len() ==> free_of(#[trigger] split(s, d)[k], c),
    decreases s.len(),
{
    if s.len() > 0 {
        let s0 = s.drop_last();
        assert(free_of(s0, c)) by {
            assert forall|i: int| 0 <= i < s0.len() implies s0[i] != c by {
                assert(s0[i] == s[i]);
            }
        }
        lemma_split_keeps_free(s0, d, c);
        lemma_split_nonempty(s0, d);
        let rest = split(s0, d);
        if s.last() != d {
            let l = rest.last().push(s.last());
            assert(free_of(rest[rest.len() - 1], c));
            assert(free_of(l, c)) by {
                assert forall|i: int| 0 <= i < l.len() implies l[i] != c by {
                    if i < l.len() - 1 {
                        assert(l[i] == rest[rest.len() - 1][i]);
                    } else {
                        assert(s[s.len() - 1] != c);
                    }
                }
            }
        }
        assert forall|k: int| 0 <= k < split(s, d).len() implies free_of(
            #[trigger] split(s, d)[k],
            c,
        ) by {
            if k < rest.len() && !(s.last() != d && k == rest.len() - 1) {
                assert(split(s, d)[k] == rest[k]);
            }
        }
    }
}

/// Joining pieces free of `c` with a separator other than `c` gives a
/// sequence free of `c`.
pub proof fn lemma_join_free(parts: Seq<Seq<char>>, d: char, c: char)
    requires
        d != c,
        forall|k: int| 0 <= k < parts.len() ==> free_of(#[trigger] parts[k], c),
    ensures
        free_of(join(parts, d), c),
    decreases parts.len(),
{
    if parts.len() > 1 {
        let init = parts.drop_last();
        assert forall|k: int| 0 <= k < init.len() implies free_of(#[trigger] init[k], c) by {
            assert(init[k] == parts[k]);
        }
        lemma_join_free(init, d, c);
        let j = join(init, d) + seq![d] + parts.last();
        assert(free_of(parts[parts.len() - 1], c));
        assert forall|i: int| 0 <= i < j.len() implies j[i] != c by {
            if i < join(init, d).len() {
                assert(j[i] == join(init, d)[i]);
            } else if i > join(init, d).len() {
                assert(j[i] == parts.last()[i - join(init, d).len() - 1]);
            }
        }
    } else if parts.len() == 1 {
        assert(free_of(parts[0], c));
    }
}

/// The characters of `s`, in order.
pub(crate) fn chars_of(s: &str) -> (r: Vec<char>)
    ensures
        r@ == s@,
{
    broadcast use vstd::string::group_string_axioms;

    let mut it = s.chars();
    let mut r: Vec<char> = Vec::new();
    assert(r@ + it.remaining() =~= s@);
    loop
        invariant
            r@ + it.remaining() == s@,
            it.decrease() is Some,
        ensures
            r@ == s@,
        decreases it.decrease()->0,
    {
        let ghost before = it;
        match it.next() {
            Some(c) => {
                r.push(c);
                assert(r@ + it.remaining() =~= s@) by {
                    assert(before.remaining().len() > 0);
                }
            },
            None => {
                assert(before.remaining().len() == 0);
                assert(r@ =~= s@);
                break;
            },
        }
    }
    r
}

/// Relies on `String`'s `FromIterator<&char>`: a string of the given characters.
#[verifier::external_body]
pub(crate) fn string_of(v: &Vec<char>) -> (r: String)
    ensures
        r@ == v@,
{
    v.iter().collect()
}

/// Splits `s` at each `d`.
pub fn split_chars(s: &Vec<char>, d: char) -> (r: Vec<Vec<char>>)
    ensures
        r.deep_view() == split(s@, d),
{
    let mut parts: Vec<Vec<char>> = Vec::new();
    let mut cur: Vec<char> = Vec::new();
    let mut i: usize = 0;
    while i < s.len()
        invariant
            0 <= i <= s.len(),
            parts.deep_view().push(cur@) == split(s@.subrange(0, i as int), d),
        decreases s.len() - i,
    {
        let c = s[i];
        let ghost pd = parts.deep_view();
        let ghost before = pd.push(cur@);
        assert(s@.subrange(0, i + 1).drop_last() =~= s@.subrange(0, i as int));
        assert(s@.subrange(0, i + 1).last() == c);
        if c == d {
            let done = cur;
            assert(done.deep_view() =~= done@);
            parts.push(done);
            assert(parts.deep_view() =~= pd.push(before.last()));
            cur = Vec::new();
            assert(parts.deep_view().push(cur@) =~= before.push(Seq::<char>::empty()));
        } else {
            cur.push(c);
            assert(parts.deep_view().push(cur@) =~= before.update(
                before.len() - 1,
                before.last().push(c),
            ));
        }
        i += 1;
    }
    let ghost pd = parts.deep_view();
    let ghost last = cur@;
    assert(cur.deep_view() =~= cur@);
    parts.push(cur);
    assert(parts.deep_view() =~= pd.push(last));
    assert(s@.subrange(0, s.len() as int) =~= s@);
    assert(parts.deep_view() =~= split(s@, d));
    parts
}

/// Joins `parts` with one `d` between neighbours.
pub fn join_chars(parts: &Vec<Vec<char>>, d: char) -> (r: Vec<char>)
    ensures
        r@ == join(parts.deep_view(), d),
{
    let mut out: Vec<char> = Vec::new();
    let mut k: usize = 0;
    while k < parts.len()
        invariant
            0 <= k <= parts.len(),
            out@ == join(parts.deep_view().subrange(0, k as int), d),
        decreases parts.len() - k,
    {
        let ghost pre = parts.deep_view().subrange(0, k as int);
        let ghost next = parts.deep_view().subrange(0, k + 1);
        assert(next.drop_last() =~= pre);
        if k > 0 {
            out.push(d);
        }
        let piece = &parts[k];
        assert(piece.deep_view() =~= piece@);
        let mut j: usize = 0;
        let ghost base = out@;
        while j < piece.len()
            invariant
                0 <= j <= piece.len(),
                out@ == base + piece@.subrange(0, j as int),
            decreases piece.len() - j,
        {
            out.push(piece[j]);
            j += 1;
            assert(out@ =~= base + piece@.subrange(0, j as int));
        }
        assert(piece@.subrange(0, piece.len() as int) =~= piece@);
        assert(next.last() == piece@);
        if k == 0 {
            assert(out@ =~= join(next, d));
        } else {
            assert(out@ =~= join(next, d));
        }
        k += 1;
    }
    assert(parts.deep_view().subrange(0, parts.len() as int) =~= parts.deep_view());
    out
}

} // verus!
