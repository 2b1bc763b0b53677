use vstd::prelude::*;

verus! {

/// The pieces of `s` between newline characters, in order; always at least
/// one piece (the text after the last newline, possibly empty).
pub open spec fn split_newlines(s: Seq<char>) -> Seq<Seq<char>>
    decreases s.len(),
{
    if s.len() == 0 {
        seq![Seq::empty()]
    } else {
        let init = split_newlines(s.drop_last());
        if s.last() == '\n' {
            init.push(Seq::empty())
        } else {
            init.update(init.len() - 1, init.last().push(s.last()))
        }
    }
}

/// A line that was ended by `\r\n` loses its `\r`.
pub open spec fn strip_cr(l: Seq<char>) -> Seq<char> {
    if l.len() > 0 && l.last() == '\r' {
        l.drop_last()
    } else {
        l
    }
}

/// The lines of a text: split at `\n`, a line ended by `\r\n` loses the
/// `\r`, and an empty piece after the final newline is no line.
pub open spec fn lines_of(s: Seq<char>) -> Seq<Seq<char>> {
    let p = split_newlines(s);
    let done = p.drop_last().map_values(|l: Seq<char>| strip_cr(l));
    if p.last().len() == 0 {
        done
    } else {
        done.push(p.last())
    }
}

pub proof fn lemma_split_newlines_len(s: Seq<char>)
    ensures
        split_newlines(s).len() >= 1,
    decreases s.len(),
{
    if s.len() > 0 {
        lemma_split_newlines_len(s.drop_last());
    }
}

/// The text of `ls` joined by single newlines.
pub open spec fn join_lines(ls: Seq<Seq<char>>) -> Seq<char>
    decreases ls.len(),
{
    if ls.len() == 0 {
        Seq::empty()
    } else if ls.len() == 1 {
        ls[0]
    } else {
        join_lines(ls.drop_last()) + seq!['\n'] + ls.last()
    }
}

pub open spec fn has_no_newline(l: Seq<char>) -> bool {
    forall|i: int| 0 <= i < l.len() ==> l[i] != '\n'
}

/// Text without a newline extends the last piece.
proof fn lemma_split_extend(a: Seq<char>, b: Seq<char>)
    requires
        has_no_newline(b),
    ensures
        split_newlines(a + b) == split_newlines(a).update(
            split_newlines(a).len() - 1,
            split_newlines(a).last() + b,
        ),
    decreases b.len(),
{
    lemma_split_newlines_len(a);
    let sa = split_newlines(a);
    if b.len() == 0 {
        assert(a + b =~= a);
        assert(sa.last() + b =~= sa.last());
        assert(sa.update(sa.len() - 1, sa.last()) =~= sa);
    } else {
        let b0 = b.drop_last();
        lemma_split_extend(a, b0);
        assert((a + b).drop_last() =~= a + b0);
        assert((a + b).last() == b.last());
        let s0 = split_newlines(a + b0);
        assert(s0.last() == sa.last() + b0);
        assert((sa.last() + b0).push(b.last()) =~= sa.last() + b);
        assert(split_newlines(a + b) =~= sa.update(sa.len() - 1, sa.last() + b));
    }
}

/// Joining lines without newlines and splitting at newlines gives the lines
/// back.
proof fn lemma_split_join(ls: Seq<Seq<char>>)
    requires
        ls.len() >= 1,
        forall|i: int| 0 <= i < ls.len() ==> has_no_newline(#[trigger] ls[i]),
    ensures
        split_newlines(join_lines(ls)) == ls,
    decreases ls.len(),
{
    if ls.len() == 1 {
        let e = Seq::<char>::empty();
        lemma_split_extend(e, ls[0]);
        assert(e + ls[0] =~= ls[0]);
        assert(split_newlines(e) == seq![e]);
        assert(e + ls[0] =~= ls[0]);
        assert(seq![e].update(0, e + ls[0]) =~= ls);
    } else {
        let init = ls.drop_last();
        lemma_split_join(init);
        let a = join_lines(init) + seq!['\n'];
        assert(a.drop_last() =~= join_lines(init));
        assert(split_newlines(a) == init.push(Seq::empty()));
        lemma_split_extend(a, ls.last());
        assert(Seq::<char>::empty() + ls.last() =~= ls.last());
        assert(init.push(Seq::empty()).update(init.len() as int, Seq::<char>::empty() + ls.last())
            =~= ls);
    }
}

/// The lines of joined text are the lines joined, when none holds a newline
/// or ends in `\r`, and the last is not empty.
pub proof fn lemma_lines_of_join(ls: Seq<Seq<char>>)
    requires
        forall|i: int| 0 <= i < ls.len() ==> has_no_newline(#[trigger] ls[i]),
        forall|i: int| 0 <= i < ls.len() ==> strip_cr(#[trigger] ls[i]) == ls[i],
        ls.len() > 0 ==> ls.last().len() > 0,
    ensures
        lines_of(join_lines(ls)) == ls,
{
    if ls.len() == 0 {
        assert(split_newlines(join_lines(ls)) == seq![Seq::<char>::empty()]);
        assert(lines_of(join_lines(ls)) =~= ls);
    } else {
        lemma_split_join(ls);
        let done = ls.drop_last().map_values(|l: Seq<char>| strip_cr(l));
        assert(done =~= ls.drop_last());
        assert(done.push(ls.last()) =~= ls);
    }
}

/// The line bounds of `cs`: `cs[lo..hi]` is each line of `lines_of(cs@)`,
/// in order.
pub(crate) fn line_ranges(cs: &Vec<char>) -> (r: Vec<(usize, usize)>)
    ensures
        r@.len() == lines_of(cs@).len(),
        forall|k: int|
            0 <= k < r@.len() ==> {
                &&& (#[trigger] r@[k]).0 <= r@[k].1 <= cs@.len()
                &&& cs@.subrange(r@[k].0 as int, r@[k].1 as int) == lines_of(cs@)[k]
            },
{
    let n = cs.len();
    let mut r: Vec<(usize, usize)> = Vec::new();
    let mut start: usize = 0;
    let mut i: usize = 0;
    assert(cs@.take(0) =~= Seq::<char>::empty());
    while i < n
        invariant
            n == cs@.len(),
            start <= i <= n,
            split_newlines(cs@.take(i as int)).len() == r@.len() + 1,
            split_newlines(cs@.take(i as int)).last() == cs@.subrange(start as int, i as int),
            forall|k: int|
                0 <= k < r@.len() ==> {
                    &&& (#[trigger] r@[k]).0 <= r@[k].1 <= cs@.len()
                    &&& cs@.subrange(r@[k].0 as int, r@[k].1 as int) == strip_cr(
                        split_newlines(cs@.take(i as int))[k],
                    )
                },
        decreases n - i,
    {
        let ghost old_split = split_newlines(cs@.take(i as int));
        let ghost next = cs@.take(i + 1);
        assert(next.drop_last() =~= cs@.take(i as int));
        assert(next.last() == cs@[i as int]);
        proof {
            lemma_split_newlines_len(cs@.take(i as int));
        }
        if cs[i] == '\n' {
            let end = if i > start && cs[i - 1] == '\r' {
                i - 1
            } else {
                i
            };
            assert(cs@.subrange(start as int, end as int) =~= strip_cr(
                cs@.subrange(start as int, i as int),
            ));
            r.push((start, end));
            start = i + 1;
            assert(split_newlines(next) == old_split.push(Seq::empty()));
            assert(cs@.subrange(start as int, i + 1) =~= Seq::<char>::empty());
        } else {
            assert(split_newlines(next) == old_split.update(
                old_split.len() - 1,
                old_split.last().push(cs@[i as int]),
            ));
            assert(cs@.subrange(start as int, i + 1) =~= cs@.subrange(start as int, i as int).push(
                cs@[i as int],
            ));
        }
        i = i + 1;
    }
    assert(cs@.take(n as int) =~= cs@);
    let ghost p = split_newlines(cs@);
    let ghost done = p.drop_last().map_values(|l: Seq<char>| strip_cr(l));
    if start < n {
        r.push((start, n));
        assert(p.last().len() > 0);
    } else {
        assert(p.last().len() == 0);
    }
    r
}

} // verus!
