//! The branches of a remote repository, as `git ls-remote` lists them.

use vstd::prelude::*;

use crate::text::{chars_of, has_prefix, split, split_on, string_of, views};

verus! {

/// What stands before the name of a branch.
pub const HEADS: &'static str = "refs/heads/";

/// What follows the first place at which `mark` stands in a text.
pub open spec fn after_mark(s: Seq<char>, mark: Seq<char>) -> Option<Seq<char>>
    decreases s.len(),
{
    if has_prefix(s, mark) {
        Some(s.skip(mark.len() as int))
    } else if s.len() == 0 {
        None
    } else {
        after_mark(s.skip(1), mark)
    }
}

/// A line without the carriage return at its end.
pub open spec fn without_return(line: Seq<char>) -> Seq<char> {
    if line.len() > 0 && line.last() == '\r' {
        line.drop_last()
    } else {
        line
    }
}

/// The names on those lines that have one, in order.
pub open spec fn names_on(lines: Seq<Seq<char>>) -> Seq<Seq<char>>
    decreases lines.len(),
{
    if lines.len() == 0 {
        Seq::empty()
    } else {
        match after_mark(without_return(lines.last()), HEADS@) {
            Some(name) => names_on(lines.drop_last()).push(name),
            None => names_on(lines.drop_last()),
        }
    }
}

/// The first items, at most `n` of them.
pub open spec fn first_of(items: Seq<Seq<char>>, n: int) -> Seq<Seq<char>> {
    if items.len() > n {
        items.take(n)
    } else {
        items
    }
}

/// The name of the branch on a line.
fn branch_on(line: &str) -> (r: Option<String>)
    ensures
        r is Some <==> after_mark(without_return(line@), HEADS@) is Some,
        r matches Some(name) ==> Some(name@) == after_mark(without_return(line@), HEADS@),
{
    let v: Vec<char> = chars_of(line);
    let mark: Vec<char> = chars_of(HEADS);
    let n: usize = if v.len() > 0 && v[v.len() - 1] == '\r' {
        v.len() - 1
    } else {
        v.len()
    };
    let ghost s = without_return(line@);
    proof {
        reveal_strlit("refs/heads/");
        assert(s =~= v@.take(n as int));
        assert(s.skip(0) =~= s);
    }
    let mut i: usize = 0;
    while i < n
        invariant
            i <= n <= v@.len(),
            s == without_return(line@),
            s == v@.take(n as int),
            mark@ == HEADS@,
            mark@.len() > 0,
            after_mark(s, HEADS@) == after_mark(s.skip(i as int), HEADS@),
        decreases n - i,
    {
        let ghost t = s.skip(i as int);
        let mut k: usize = 0;
        while k < mark.len() && k < n - i && v[i + k] == mark[k]
            invariant
                k <= mark@.len(),
                k <= n - i,
                i < n <= v@.len(),
                s == v@.take(n as int),
                t == s.skip(i as int),
                forall|j: int| 0 <= j < k ==> #[trigger] t[j] == mark@[j],
            decreases mark@.len() - k,
        {
            assert(t[k as int] == v@[i + k]);
            k += 1;
        }
        if k == mark.len() {
            proof {
                assert(t.subrange(0, mark@.len() as int) =~= mark@);
                assert(v@.subrange(i + k, n as int) =~= t.skip(mark@.len() as int));
            }
            return Some(string_of(&v, i + k, n));
        }
        proof {
            if has_prefix(t, mark@) {
                assert(t.subrange(0, mark@.len() as int)[k as int] == mark@[k as int]);
                assert(t[k as int] == v@[i + k]);
            }
            assert(t.skip(1) =~= s.skip(i + 1));
        }
        i += 1;
    }
    None
}

/// The names of the branches in a listing, in its order, at most `limit` of
/// them.
pub fn branch_names(listing: &str, limit: usize) -> (r: Vec<String>)
    ensures
        views(r@) == first_of(names_on(split_on(listing@, '\n')), limit as int),
{
    let lines: Vec<String> = split(listing, '\n');
    let ghost all = views(lines@);
    let mut out: Vec<String> = Vec::new();
    let mut i: usize = 0;
    proof {
        assert(all.take(0) =~= Seq::empty());
        assert(views(out@) =~= Seq::empty());
    }
    while i < lines.len()
        invariant
            i <= lines@.len(),
            all == views(lines@),
            views(out@) == first_of(names_on(all.take(i as int)), limit as int),
        decreases lines@.len() - i,
    {
        let ghost before = views(out@);
        proof {
            assert(all.take(i + 1).drop_last() =~= all.take(i as int));
            assert(all.take(i + 1).last() == lines@[i as int]@);
        }
        if let Some(name) = branch_on(&lines[i]) {
            let ghost x = name@;
            if out.len() < limit {
                out.push(name);
                assert(views(out@) =~= before.push(x));
            }
            proof {
                let names = names_on(all.take(i as int));
                assert(views(out@) =~= first_of(names.push(x), limit as int));
            }
        }
        i += 1;
    }
    assert(all.take(all.len() as int) =~= all);
    out
}

/// Every name that is given stands behind `refs/heads/` on a line of the
/// listing, and there are no more of them than asked for.
pub proof fn law_names_come_from_lines(lines: Seq<Seq<char>>, limit: int, name: Seq<char>)
    requires
        limit >= 0,
        first_of(names_on(lines), limit).contains(name),
    ensures
        first_of(names_on(lines), limit).len() <= limit,
        exists|i: int|
            0 <= i < lines.len() && after_mark(without_return(#[trigger] lines[i]), HEADS@) == Some(
                name,
            ),
{
    let names = names_on(lines);
    let some = first_of(names, limit);
    let i = choose|i: int| 0 <= i < some.len() && some[i] == name;
    assert(names[i] == name);
    lemma_name_on_line(lines, i);
}

proof fn lemma_name_on_line(lines: Seq<Seq<char>>, n: int)
    requires
        0 <= n < names_on(lines).len(),
    ensures
        exists|i: int|
            0 <= i < lines.len() && after_mark(without_return(#[trigger] lines[i]), HEADS@) == Some(
                names_on(lines)[n],
            ),
    decreases lines.len(),
{
    let before = names_on(lines.drop_last());
    if n < before.len() {
        lemma_name_on_line(lines.drop_last(), n);
        let i = choose|i: int|
            0 <= i < lines.drop_last().len() && after_mark(
                without_return(#[trigger] lines.drop_last()[i]),
                HEADS@,
            ) == Some(before[n]);
        assert(lines[i] == lines.drop_last()[i]);
    } else {
        assert(lines[lines.len() - 1] == lines.last());
    }
}

/// Where the mark stands for the first time, what follows it is what follows
/// the mark.
proof fn lemma_after_mark(before: Seq<char>, mark: Seq<char>, name: Seq<char>)
    requires
        forall|j: int|
            0 <= j < before.len() ==> !has_prefix(#[trigger] (before + mark + name).skip(j), mark),
    ensures
        after_mark(before + mark + name, mark) == Some(name),
    decreases before.len(),
{
    let s = before + mark + name;
    if before.len() == 0 {
        assert(s.subrange(0, mark.len() as int) =~= mark);
        assert(s.skip(mark.len() as int) =~= name);
    } else {
        assert(s.skip(0) =~= s);
        let rest = before.skip(1);
        assert(s.skip(1) =~= rest + mark + name);
        assert forall|j: int| 0 <= j < rest.len() implies !has_prefix(
            #[trigger] (rest + mark + name).skip(j),
            mark,
        ) by {
            assert((rest + mark + name).skip(j) =~= s.skip(j + 1));
        }
        lemma_after_mark(rest, mark, name);
    }
}

proof fn lemma_no_mark(s: Seq<char>, mark: Seq<char>)
    requires
        mark.len() > 0,
        forall|j: int| 0 <= j <= s.len() ==> !has_prefix(#[trigger] s.skip(j), mark),
    ensures
        after_mark(s, mark) is None,
    decreases s.len(),
{
    assert(s.skip(0) =~= s);
    if s.len() > 0 {
        let rest = s.skip(1);
        assert forall|j: int| 0 <= j <= rest.len() implies !has_prefix(
            #[trigger] rest.skip(j),
            mark,
        ) by {
            assert(rest.skip(j) =~= s.skip(j + 1));
        }
        lemma_no_mark(rest, mark);
    }
}

/// A line of a listing names a branch where `refs/heads/` stands on it: the
/// branch is what follows, slashes and all, without a carriage return at the
/// end. A line without it names none.
pub proof fn law_line_names_branch(
    lines: Seq<Seq<char>>,
    before: Seq<char>,
    name: Seq<char>,
    other: Seq<char>,
)
    requires
        forall|i: int| 0 <= i < before.len() ==> before[i] != '/',
        name.len() > 0 ==> name.last() != '\r',
        forall|j: int| 0 <= j <= other.len() ==> !has_prefix(#[trigger] other.skip(j), "refs/heads/"@),
        other.len() > 0 ==> other.last() != '\r',
    ensures
        names_on(Seq::empty()) == Seq::<Seq<char>>::empty(),
        names_on(lines.push(before + "refs/heads/"@ + name)) == names_on(lines).push(name),
        names_on(lines.push(before + "refs/heads/"@ + name + seq!['\r'])) == names_on(lines).push(
            name,
        ),
        names_on(lines.push(other)) == names_on(lines),
{
    reveal_strlit("refs/heads/");
    let mark = "refs/heads/"@;
    let s = before + mark + name;
    assert forall|j: int| 0 <= j < before.len() implies !has_prefix(
        #[trigger] (before + mark + name).skip(j),
        mark,
    ) by {
        if has_prefix(s.skip(j), mark) {
            assert(s.skip(j).subrange(0, 11)[4] == s[j + 4]);
            assert(mark[4] == '/');
            if j + 4 < before.len() {
                assert(s[j + 4] == before[j + 4]);
            } else {
                assert(s[j + 4] == mark[j + 4 - before.len()]);
            }
        }
    }
    lemma_after_mark(before, mark, name);
    lemma_no_mark(other, mark);
    let back = s + seq!['\r'];
    assert(back.drop_last() =~= s);
    assert(s.last() == if name.len() > 0 {
        name.last()
    } else {
        '/'
    });
    assert(lines.push(s).drop_last() =~= lines);
    assert(lines.push(back).drop_last() =~= lines);
    assert(lines.push(other).drop_last() =~= lines);
}

/// No more names are given than asked for, and the first of them.
pub proof fn law_first_names(names: Seq<Seq<char>>, limit: int)
    requires
        limit >= 0,
    ensures
        names.len() <= limit ==> first_of(names, limit) == names,
        names.len() > limit ==> first_of(names, limit).len() == limit && forall|i: int|
            0 <= i < limit ==> #[trigger] first_of(names, limit)[i] == names[i],
{
}

} // verus!
