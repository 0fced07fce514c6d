//! Splitting text into lines and pieces, and joining them back.

use vstd::prelude::*;
use crate::text::{push_all, push_range};

verus! {

/// The pieces of `s` between occurrences of `sep`, as `str::split` with a
/// `char` pattern yields them: always at least one, possibly empty.
pub open spec fn split_on(s: Seq<char>, sep: char) -> Seq<Seq<char>>
    decreases s.len(),
{
    if s.len() == 0 {
        seq![Seq::<char>::empty()]
    } else {
        let r = split_on(s.drop_last(), sep);
        if s.last() == sep {
            r.push(Seq::<char>::empty())
        } else {
            r.update(r.len() - 1, r.last().push(s.last()))
        }
    }
}

pub proof fn lemma_split_on_nonempty(s: Seq<char>, sep: char)
    ensures
        split_on(s, sep).len() >= 1,
    decreases s.len(),
{
    if s.len() > 0 {
        lemma_split_on_nonempty(s.drop_last(), sep);
    }
}

/// Views of a vector of character vectors.
pub open spec fn views(v: Seq<Vec<char>>) -> Seq<Seq<char>> {
    v.map_values(|x: Vec<char>| x@)
}

pub open spec fn string_views(v: Seq<String>) -> Seq<Seq<char>> {
    v.map_values(|x: String| x@)
}

/// `s[lo..hi]` split at `sep`.
pub fn split_range(s: &Vec<char>, lo: usize, hi: usize, sep: char) -> (r: Vec<Vec<char>>)
    requires
        lo <= hi <= s.len(),
    ensures
        views(r@) == split_on(s@.subrange(lo as int, hi as int), sep),
{
    let mut pieces: Vec<Vec<char>> = Vec::new();
    let mut cur: Vec<char> = Vec::new();
    let mut i = lo;
    while i < hi
        invariant
            lo <= i <= hi <= s.len(),
            split_on(s@.subrange(lo as int, i as int), sep) == views(pieces@).push(cur@),
        decreases hi - i,
    {
        let ghost before = s@.subrange(lo as int, i as int);
        assert(s@.subrange(lo as int, i + 1).drop_last() =~= before);
        proof {
            lemma_split_on_nonempty(before, sep);
        }
        if s[i] == sep {
            let done = cur;
            pieces.push(done);
            cur = Vec::new();
            assert(views(pieces@).push(cur@) =~= split_on(s@.subrange(lo as int, i + 1), sep));
        } else {
            cur.push(s[i]);
            assert(views(pieces@).push(cur@) =~= split_on(s@.subrange(lo as int, i + 1), sep));
        }
        i = i + 1;
    }
    pieces.push(cur);
    assert(views(pieces@) =~= split_on(s@.subrange(lo as int, hi as int), sep));
    pieces
}

/// A line with its terminator taken off: `\n`, and then a `\r` before it.
pub open spec fn strip_cr(line: Seq<char>) -> Seq<char> {
    if line.len() > 0 && line.last() == '\r' {
        line.drop_last()
    } else {
        line
    }
}

/// The lines of `s`, as `str::lines` yields them: split at `\n`, a `\r`
/// before the `\n` removed, and no empty line after a final `\n`.
pub open spec fn lines(s: Seq<char>) -> Seq<Seq<char>> {
    if s.len() == 0 {
        Seq::empty()
    } else {
        let p = split_on(s, '\n');
        let body = p.drop_last().map_values(|l: Seq<char>| strip_cr(l));
        if p.last().len() == 0 {
            body
        } else {
            body.push(p.last())
        }
    }
}

pub fn lines_of(s: &Vec<char>) -> (r: Vec<Vec<char>>)
    ensures
        views(r@) == lines(s@),
{
    let mut out: Vec<Vec<char>> = Vec::new();
    if s.len() == 0 {
        assert(views(out@) =~= lines(s@));
        return out;
    }
    let pieces = split_range(s, 0, s.len(), '\n');
    assert(s@.subrange(0, s@.len() as int) =~= s@);
    proof {
        lemma_split_on_nonempty(s@, '\n');
    }
    let n = pieces.len();
    let mut k: usize = 0;
    while k + 1 < n
        invariant
            n == pieces.len(),
            n >= 1,
            k < n,
            views(pieces@) == split_on(s@, '\n'),
            views(out@) == split_on(s@, '\n').take(k as int).map_values(
                |l: Seq<char>| strip_cr(l),
            ),
        decreases n - k,
    {
        let p = &pieces[k];
        let mut line: Vec<char> = Vec::new();
        if p.len() > 0 && p[p.len() - 1] == '\r' {
            push_range(&mut line, p, 0, p.len() - 1);
            assert(line@ =~= p@.drop_last());
        } else {
            push_range(&mut line, p, 0, p.len());
            assert(line@ =~= p@);
        }
        assert(views(pieces@)[k as int] == pieces@[k as int]@);
        assert(p@ == split_on(s@, '\n')[k as int]);
        let ghost old_out = views(out@);
        out.push(line);
        assert(views(out@) =~= old_out.push(strip_cr(split_on(s@, '\n')[k as int])));
        k = k + 1;
        assert(views(out@) =~= split_on(s@, '\n').take(k as int).map_values(
            |l: Seq<char>| strip_cr(l),
        ));
    }
    let last = &pieces[n - 1];
    assert(split_on(s@, '\n').take(k as int) =~= split_on(s@, '\n').drop_last());
    if last.len() > 0 {
        let mut l: Vec<char> = Vec::new();
        push_all(&mut l, last);
        out.push(l);
        assert(views(out@) =~= lines(s@));
    } else {
        assert(views(out@) =~= lines(s@));
    }
    out
}

/// `parts` joined with `sep` between consecutive ones.
pub open spec fn join(parts: Seq<Seq<char>>, sep: Seq<char>) -> Seq<char>
    decreases parts.len(),
{
    if parts.len() == 0 {
        Seq::empty()
    } else if parts.len() == 1 {
        parts[0]
    } else {
        join(parts.drop_last(), sep) + sep + parts.last()
    }
}

/// Joins `parts` with the single character `sep`.
pub fn join_exec(parts: &Vec<Vec<char>>, sep: char) -> (r: Vec<char>)
    ensures
        r@ == join(views(parts@), seq![sep]),
{
    let mut out: Vec<char> = Vec::new();
    let mut k: usize = 0;
    while k < parts.len()
        invariant
            k <= parts.len(),
            out@ == join(views(parts@).take(k as int), seq![sep]),
        decreases parts.len() - k,
    {
        if k > 0 {
            out.push(sep);
        }
        push_all(&mut out, &parts[k]);
        k = k + 1;
        assert(views(parts@).take(k as int).drop_last() =~= views(parts@).take(k - 1));
        assert(out@ =~= join(views(parts@).take(k as int), seq![sep]));
    }
    assert(views(parts@).take(parts.len() as int) =~= views(parts@));
    out
}

/// No piece of `split_on(s, sep)` holds `sep`.
pub proof fn lemma_pieces_lack_sep(s: Seq<char>, sep: char)
    ensures
        forall|i: int, j: int|
            0 <= i < split_on(s, sep).len() && 0 <= j < split_on(s, sep)[i].len()
                ==> #[trigger] split_on(s, sep)[i][j] != sep,
    decreases s.len(),
{
    if s.len() > 0 {
        lemma_pieces_lack_sep(s.drop_last(), sep);
        lemma_split_on_nonempty(s.drop_last(), sep);
        let r = split_on(s.drop_last(), sep);
        if s.last() != sep {
            assert forall|i: int, j: int|
                0 <= i < split_on(s, sep).len() && 0 <= j < split_on(s, sep)[i].len()
                    implies #[trigger] split_on(s, sep)[i][j] != sep by {
                if i < r.len() - 1 {
                    assert(split_on(s, sep)[i] == r[i]);
                } else {
                    assert(split_on(s, sep)[i] == r.last().push(s.last()));
                    if j < r.last().len() {
                        assert(r.last()[j] == r[r.len() - 1][j]);
                    }
                }
            }
        } else {
            assert forall|i: int, j: int|
                0 <= i < split_on(s, sep).len() && 0 <= j < split_on(s, sep)[i].len()
                    implies #[trigger] split_on(s, sep)[i][j] != sep by {
                if i < r.len() {
                    assert(split_on(s, sep)[i] == r[i]);
                }
            }
        }
    }
}

/// Appending text free of `sep` extends the last piece.
pub proof fn lemma_split_append_plain(a: Seq<char>, b: Seq<char>, sep: char)
    requires
        forall|j: int| 0 <= j < b.len() ==> b[j] != sep,
    ensures
        split_on(a + b, sep) == split_on(a, sep).update(
            split_on(a, sep).len() - 1,
            split_on(a, sep).last() + b,
        ),
    decreases b.len(),
{
    lemma_split_on_nonempty(a, sep);
    if b.len() == 0 {
        assert(a + b =~= a);
        assert(split_on(a, sep).last() + b =~= split_on(a, sep).last());
        assert(split_on(a, sep).update(split_on(a, sep).len() - 1, split_on(a, sep).last())
            =~= split_on(a, sep));
    } else {
        lemma_split_append_plain(a, b.drop_last(), sep);
        assert((a + b).drop_last() =~= a + b.drop_last());
        assert((a + b).last() == b.last());
        let r = split_on(a + b.drop_last(), sep);
        assert(r.last() =~= split_on(a, sep).last() + b.drop_last());
        assert(r.last().push(b.last()) =~= split_on(a, sep).last() + b);
        assert(split_on(a + b, sep) =~= split_on(a, sep).update(
            split_on(a, sep).len() - 1,
            split_on(a, sep).last() + b,
        ));
    }
}

/// Splitting what was joined gives the pieces back, when none of them holds
/// the separator.
pub proof fn lemma_split_join(ps: Seq<Seq<char>>, sep: char)
    requires
        ps.len() >= 1,
        forall|i: int, j: int|
            0 <= i < ps.len() && 0 <= j < ps[i].len() ==> #[trigger] ps[i][j] != sep,
    ensures
        split_on(join(ps, seq![sep]), sep) == ps,
    decreases ps.len(),
{
    let last = ps.last();
    assert forall|j: int| 0 <= j < last.len() implies last[j] != sep by {
        assert(ps[ps.len() - 1][j] == last[j]);
    }
    if ps.len() == 1 {
        lemma_split_append_plain(Seq::empty(), ps[0], sep);
        assert(Seq::<char>::empty() + ps[0] =~= ps[0]);
        assert(split_on(Seq::<char>::empty(), sep) =~= seq![Seq::<char>::empty()]);
        assert(seq![Seq::<char>::empty()].update(0, ps[0]) =~= ps);
    } else {
        let init = ps.drop_last();
        assert forall|i: int, j: int| 0 <= i < init.len() && 0 <= j < init[i].len() implies #[trigger] init[i][j]
            != sep by {
            assert(init[i] == ps[i]);
        }
        lemma_split_join(init, sep);
        let x = join(init, seq![sep]);
        assert(join(ps, seq![sep]) =~= x.push(sep) + last);
        assert(x.push(sep).drop_last() =~= x);
        lemma_split_on_nonempty(x, sep);
        lemma_split_append_plain(x.push(sep), last, sep);
        assert(Seq::<char>::empty() + last =~= last);
        assert(init.push(Seq::<char>::empty()).update(init.len() as int, last) =~= ps);
    }
}

} // verus!
