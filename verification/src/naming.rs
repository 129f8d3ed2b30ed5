//! Names of sprites: made of what a branch, a repository or a user calls them.

use vstd::prelude::*;

use crate::text::{ascii_lower, chars_of, concat, string_of};

verus! {

/// A name holds at most this many characters.
pub const SLUG_LIMIT: usize = 48;

/// Whether a character is an ASCII letter or digit.
pub open spec fn is_alnum(c: char) -> bool {
    'a' <= c <= 'z' || 'A' <= c <= 'Z' || '0' <= c <= '9'
}

/// What becomes of a character in a name: letters in lower case and digits
/// stay, everything else is a dash.
pub open spec fn normal(c: char) -> char {
    if is_alnum(c) {
        ascii_lower(c)
    } else {
        '-'
    }
}

/// A text in the characters of names, with no two dashes in a row.
pub open spec fn dashed(s: Seq<char>) -> Seq<char>
    decreases s.len(),
{
    if s.len() == 0 {
        Seq::empty()
    } else {
        let before = dashed(s.drop_last());
        let c = normal(s.last());
        if c == '-' && before.len() > 0 && before.last() == '-' {
            before
        } else {
            before.push(c)
        }
    }
}

/// A text without a character at its beginning.
pub open spec fn without_front(s: Seq<char>, c: char) -> Seq<char>
    decreases s.len(),
{
    if s.len() > 0 && s[0] == c {
        without_front(s.skip(1), c)
    } else {
        s
    }
}

/// A text without a character at its end.
pub open spec fn without_back(s: Seq<char>, c: char) -> Seq<char>
    decreases s.len(),
{
    if s.len() > 0 && s.last() == c {
        without_back(s.drop_last(), c)
    } else {
        s
    }
}

/// The first characters of a text, at most `n` of them.
pub open spec fn at_most(s: Seq<char>, n: int) -> Seq<char> {
    if s.len() > n {
        s.take(n)
    } else {
        s
    }
}

/// The name that a text gives: lower case letters and digits, with single
/// dashes for everything between them.
pub open spec fn slug(s: Seq<char>) -> Seq<char> {
    at_most(without_back(without_front(dashed(s), '-'), '-'), SLUG_LIMIT as int)
}

fn normal_char(c: char) -> (r: char)
    ensures
        r == normal(c),
{
    if 'A' <= c && c <= 'Z' {
        (c as u8 + 32) as char
    } else if ('a' <= c && c <= 'z') || ('0' <= c && c <= '9') {
        c
    } else {
        '-'
    }
}

pub(crate) fn count_front(v: &Vec<char>, c: char) -> (from: usize)
    ensures
        from <= v@.len(),
        v@.skip(from as int) == without_front(v@, c),
{
    let mut from: usize = 0;
    assert(v@.skip(0) =~= v@);
    while from < v.len() && v[from] == c
        invariant
            from <= v@.len(),
            without_front(v@, c) == without_front(v@.skip(from as int), c),
        decreases v@.len() - from,
    {
        assert(v@.skip(from as int).skip(1) =~= v@.skip(from + 1));
        from += 1;
    }
    from
}

pub(crate) fn count_back(v: &Vec<char>, from: usize, c: char) -> (to: usize)
    requires
        from <= v@.len(),
    ensures
        from <= to <= v@.len(),
        v@.subrange(from as int, to as int) == without_back(v@.skip(from as int), c),
{
    let mut to: usize = v.len();
    assert(v@.subrange(from as int, to as int) =~= v@.skip(from as int));
    while to > from && v[to - 1] == c
        invariant
            from <= to <= v@.len(),
            without_back(v@.skip(from as int), c) == without_back(
                v@.subrange(from as int, to as int),
                c,
            ),
        decreases to,
    {
        assert(v@.subrange(from as int, to as int).drop_last() =~= v@.subrange(
            from as int,
            to - 1,
        ));
        to -= 1;
    }
    to
}

/// The name that a text gives.
pub fn slugify(value: &str) -> (r: String)
    ensures
        r@ == slug(value@),
{
    let v: Vec<char> = chars_of(value);
    let mut out: Vec<char> = Vec::new();
    let mut i: usize = 0;
    assert(v@.take(0) =~= Seq::empty());
    while i < v.len()
        invariant
            i <= v@.len(),
            out@ == dashed(v@.take(i as int)),
        decreases v@.len() - i,
    {
        proof {
            assert(v@.take(i + 1).drop_last() =~= v@.take(i as int));
            assert(v@.take(i + 1).last() == v@[i as int]);
        }
        let c: char = normal_char(v[i]);
        if !(c == '-' && out.len() > 0 && out[out.len() - 1] == '-') {
            out.push(c);
        }
        i += 1;
    }
    assert(v@.take(v@.len() as int) =~= v@);
    let from: usize = count_front(&out, '-');
    let to: usize = count_back(&out, from, '-');
    let end: usize = if to - from > SLUG_LIMIT {
        from + SLUG_LIMIT
    } else {
        to
    };
    let ghost whole = out@.subrange(from as int, to as int);
    assert(out@.subrange(from as int, end as int) =~= at_most(whole, SLUG_LIMIT as int));
    string_of(&out, from, end)
}

/// What follows the last slash or colon.
pub open spec fn last_part(s: Seq<char>) -> Seq<char>
    decreases s.len(),
{
    if s.len() == 0 || s.last() == '/' || s.last() == ':' {
        Seq::empty()
    } else {
        last_part(s.drop_last()).push(s.last())
    }
}

/// A text without `.git` at its end, however often it stands there.
pub open spec fn without_git(s: Seq<char>) -> Seq<char>
    decreases s.len(),
{
    if s.len() >= 4 && s.skip(s.len() - 4) == seq!['.', 'g', 'i', 't'] {
        without_git(s.take(s.len() - 4))
    } else {
        s
    }
}

/// The name of a repository: the last part of its address.
pub open spec fn basename(repo: Seq<char>) -> Seq<char> {
    without_git(last_part(without_back(repo, '/')))
}

/// What stands before the name in the address of a repository: the second last
/// part, which names the owner.
pub open spec fn owner(repo: Seq<char>) -> Seq<char> {
    let whole = without_back(repo, '/');
    let front = whole.take(whole.len() - last_part(whole).len());
    if front.len() == 0 {
        Seq::empty()
    } else {
        last_part(front.drop_last())
    }
}

/// Where the last part of the first `n` characters begins.
fn part_start(v: &Vec<char>, n: usize) -> (from: usize)
    requires
        n <= v@.len(),
    ensures
        from <= n,
        last_part(v@.take(n as int)) == v@.subrange(from as int, n as int),
{
    let ghost whole = v@.take(n as int);
    let mut from: usize = n;
    assert(whole.take(n as int) =~= whole);
    assert(v@.subrange(n as int, n as int) =~= Seq::empty());
    assert(last_part(whole) =~= last_part(whole.take(n as int)) + v@.subrange(n as int, n as int));
    while from > 0 && v[from - 1] != '/' && v[from - 1] != ':'
        invariant
            from <= n <= v@.len(),
            whole == v@.take(n as int),
            last_part(whole) == last_part(whole.take(from as int)) + v@.subrange(
                from as int,
                n as int,
            ),
        decreases from,
    {
        let ghost t = whole.take(from as int);
        proof {
            assert(t.drop_last() =~= whole.take(from - 1));
            assert(t.last() == v@[from - 1]);
            assert(v@.subrange(from - 1, n as int) =~= seq![v@[from - 1]] + v@.subrange(
                from as int,
                n as int,
            ));
            assert(last_part(whole) =~= last_part(whole.take(from - 1)) + v@.subrange(
                from - 1,
                n as int,
            ));
        }
        from -= 1;
    }
    proof {
        let t = whole.take(from as int);
        if from > 0 {
            assert(t.last() == v@[from - 1]);
        }
        assert(last_part(t) =~= Seq::empty());
        assert(last_part(whole) =~= v@.subrange(from as int, n as int));
    }
    from
}

/// The owner of a repository: the second last part of its address.
pub fn repo_owner(repo: &str) -> (r: String)
    ensures
        r@ == owner(repo@),
{
    let v: Vec<char> = chars_of(repo);
    assert(v@.skip(0) =~= v@);
    let n: usize = count_back(&v, 0, '/');
    let from: usize = part_start(&v, n);
    proof {
        assert(v@.subrange(0, n as int) =~= v@.take(n as int));
        assert(v@.take(n as int).take(from as int) =~= v@.take(from as int));
    }
    if from == 0 {
        return String::new();
    }
    let start: usize = part_start(&v, from - 1);
    assert(v@.take(from as int).drop_last() =~= v@.take(from - 1));
    string_of(&v, start, from - 1)
}

/// The name of a repository: the last part of its address.
pub fn repo_basename(repo: &str) -> (r: String)
    ensures
        r@ == basename(repo@),
{
    let v: Vec<char> = chars_of(repo);
    assert(v@.skip(0) =~= v@);
    let n: usize = count_back(&v, 0, '/');
    let from: usize = part_start(&v, n);
    assert(v@.subrange(0, n as int) =~= v@.take(n as int));
    let mut to: usize = n;
    while to - from >= 4 && v[to - 4] == '.' && v[to - 3] == 'g' && v[to - 2] == 'i' && v[to - 1]
        == 't'
        invariant
            from <= to <= n <= v@.len(),
            without_git(v@.subrange(from as int, n as int)) == without_git(
                v@.subrange(from as int, to as int),
            ),
        decreases to,
    {
        let ghost s = v@.subrange(from as int, to as int);
        assert(s.skip(s.len() - 4) =~= seq!['.', 'g', 'i', 't']);
        assert(s.take(s.len() - 4) =~= v@.subrange(from as int, to - 4));
        to -= 4;
    }
    proof {
        let s = v@.subrange(from as int, to as int);
        if s.len() >= 4 {
            let tail = s.skip(s.len() - 4);
            assert(tail[0] == v@[to - 4] && tail[1] == v@[to - 3] && tail[2] == v@[to - 2]
                && tail[3] == v@[to - 1]);
        }
    }
    string_of(&v, from, to)
}

/// What a user selects a sprite by, as characters.
pub open spec fn chosen(s: Option<&str>) -> Option<Seq<char>> {
    match s {
        Some(t) => Some(t@),
        None => None,
    }
}

/// The name of a selected sprite, or why there is none.
pub open spec fn selected(
    name: Option<Seq<char>>,
    repo: Option<Seq<char>>,
    branch: Option<Seq<char>>,
) -> Result<Seq<char>, Seq<char>> {
    match (name, repo, branch) {
        (Some(n), None, None) => if slug(n).len() == 0 {
            Err("instance name must contain at least one alphanumeric character"@)
        } else {
            Ok(slug(n))
        },
        (None, Some(r), Some(b)) => if slug(basename(r)).len() == 0 || slug(b).len() == 0 {
            Err("repo and branch must contain at least one alphanumeric character"@)
        } else {
            Ok(slug(basename(r)) + "-"@ + slug(b))
        },
        (Some(_), _, _) => Err("--name cannot be combined with --repo/--branch"@),
        (None, Some(_), None) => Err("--repo and --branch must be provided together"@),
        (None, None, Some(_)) => Err("--repo and --branch must be provided together"@),
        (None, None, None) => Err("provide --repo/--branch or --name"@),
    }
}

/// The name of the sprite that a name, or a repository and a branch, select.
pub fn sprite_name(name: Option<&str>, repo: Option<&str>, branch: Option<&str>) -> (r: Result<
    String,
    String,
>)
    ensures
        match selected(chosen(name), chosen(repo), chosen(branch)) {
            Ok(s) => r is Ok && r->Ok_0@ == s,
            Err(e) => r is Err && r->Err_0@ == e,
        },
{
    match (name, repo, branch) {
        (Some(name), None, None) => {
            let id: String = slugify(name);
            if id.as_str().is_empty() {
                Err("instance name must contain at least one alphanumeric character".to_owned())
            } else {
                Ok(id)
            }
        },
        (None, Some(repo), Some(branch)) => {
            let base: String = repo_basename(repo);
            let repo_slug: String = slugify(&base);
            let branch_slug: String = slugify(branch);
            if repo_slug.as_str().is_empty() || branch_slug.as_str().is_empty() {
                return Err(
                    "repo and branch must contain at least one alphanumeric character".to_owned(),
                );
            }
            Ok(concat(&concat(&repo_slug, "-"), &branch_slug))
        },
        (Some(_), _, _) => Err("--name cannot be combined with --repo/--branch".to_owned()),
        (None, Some(_), None) => Err("--repo and --branch must be provided together".to_owned()),
        (None, None, Some(_)) => Err("--repo and --branch must be provided together".to_owned()),
        (None, None, None) => Err("provide --repo/--branch or --name".to_owned()),
    }
}

/// Whether a character may stand in a name.
pub open spec fn in_name(c: char) -> bool {
    'a' <= c <= 'z' || '0' <= c <= '9' || c == '-'
}

/// Whether a text holds only characters of names, and no two dashes in a row.
pub open spec fn neat(s: Seq<char>) -> bool {
    &&& forall|i: int| 0 <= i < s.len() ==> in_name(#[trigger] s[i])
    &&& forall|i: int, j: int|
        0 <= i && j == i + 1 && j < s.len() ==> !(#[trigger] s[i] == '-' && #[trigger] s[j] == '-')
}

/// Whether a text holds a letter or a digit.
pub open spec fn has_alnum(s: Seq<char>) -> bool {
    exists|i: int| 0 <= i < s.len() && is_alnum(#[trigger] s[i])
}

proof fn lemma_dashed(s: Seq<char>)
    ensures
        neat(dashed(s)),
        has_alnum(s) <==> has_alnum(dashed(s)),
    decreases s.len(),
{
    if s.len() > 0 {
        let rest = s.drop_last();
        lemma_dashed(rest);
        let before = dashed(rest);
        let d = dashed(s);
        let c = normal(s.last());
        if has_alnum(s) {
            let i = choose|i: int| 0 <= i < s.len() && is_alnum(#[trigger] s[i]);
            if i < rest.len() {
                assert(is_alnum(rest[i]));
                let k = choose|k: int| 0 <= k < before.len() && is_alnum(#[trigger] before[k]);
                assert(d[k] == before[k]);
            } else {
                assert(d[d.len() - 1] == c);
            }
            assert(has_alnum(d));
        }
        if has_alnum(d) {
            let k = choose|k: int| 0 <= k < d.len() && is_alnum(#[trigger] d[k]);
            if k < before.len() {
                assert(is_alnum(before[k]));
                let i = choose|i: int| 0 <= i < rest.len() && is_alnum(#[trigger] rest[i]);
                assert(is_alnum(s[i]));
            } else {
                assert(is_alnum(s[s.len() - 1]));
            }
            assert(has_alnum(s));
        }
    }
}

proof fn lemma_without_front(s: Seq<char>, c: char) -> (k: int)
    ensures
        0 <= k <= s.len(),
        without_front(s, c) == s.skip(k),
        forall|i: int| 0 <= i < k ==> s[i] == c,
        k < s.len() ==> s[k] != c,
    decreases s.len(),
{
    if s.len() > 0 && s[0] == c {
        let t = s.skip(1);
        let k = lemma_without_front(t, c);
        assert(t.skip(k) =~= s.skip(k + 1));
        assert forall|i: int| 0 <= i < k + 1 implies s[i] == c by {
            if i > 0 {
                assert(t[i - 1] == s[i]);
            }
        }
        if k < t.len() {
            assert(t[k] == s[k + 1]);
        }
        k + 1
    } else {
        assert(s.skip(0) =~= s);
        0
    }
}

proof fn lemma_without_back(s: Seq<char>, c: char) -> (k: int)
    ensures
        0 <= k <= s.len(),
        without_back(s, c) == s.take(k),
        forall|i: int| k <= i < s.len() ==> s[i] == c,
        k > 0 ==> s[k - 1] != c,
    decreases s.len(),
{
    if s.len() > 0 && s.last() == c {
        let t = s.drop_last();
        let k = lemma_without_back(t, c);
        assert(t.take(k) =~= s.take(k));
        assert forall|i: int| k <= i < s.len() implies s[i] == c by {
            if i < t.len() {
                assert(t[i] == s[i]);
            }
        }
        k
    } else {
        assert(s.take(s.len() as int) =~= s);
        s.len() as int
    }
}

/// A name is at most 48 characters long, all of them lower case letters,
/// digits or single dashes. It does not begin with a dash; it ends with one
/// only where it was cut off. It is empty only where the text holds no letter
/// and no digit.
pub proof fn law_slug_shape(value: Seq<char>)
    ensures
        slug(value).len() <= SLUG_LIMIT,
        neat(slug(value)),
        slug(value).len() > 0 ==> slug(value)[0] != '-',
        0 < slug(value).len() < SLUG_LIMIT ==> slug(value).last() != '-',
        slug(value).len() > 0 <==> has_alnum(value),
{
    lemma_dashed(value);
    let d = dashed(value);
    let a = lemma_without_front(d, '-');
    let front = d.skip(a);
    let b = lemma_without_back(front, '-');
    let both = front.take(b);
    let s = slug(value);
    assert(s == at_most(both, SLUG_LIMIT as int));
    assert forall|i: int| 0 <= i < s.len() implies in_name(#[trigger] s[i]) by {
        assert(s[i] == d[i + a]);
    }
    assert forall|i: int, j: int| 0 <= i && j == i + 1 && j < s.len() implies !(#[trigger] s[i]
        == '-' && #[trigger] s[j] == '-') by {
        assert(s[i] == d[i + a] && s[j] == d[j + a]);
    }
    if has_alnum(value) {
        let k = choose|k: int| 0 <= k < d.len() && is_alnum(#[trigger] d[k]);
        assert(d[k] != '-');
        assert(a <= k);
        assert(front[k - a] == d[k]);
        assert(b > k - a);
    }
    if s.len() > 0 {
        assert(s[0] == front[0] && front[0] == d[a]);
        assert(in_name(d[a]));
        assert(is_alnum(d[a]));
        assert(has_alnum(d));
    }
}

proof fn lemma_dashed_neat(s: Seq<char>)
    requires
        neat(s),
    ensures
        dashed(s) == s,
    decreases s.len(),
{
    if s.len() > 0 {
        let t = s.drop_last();
        assert(neat(t)) by {
            assert forall|i: int| 0 <= i < t.len() implies in_name(#[trigger] t[i]) by {
                assert(t[i] == s[i]);
            }
            assert forall|i: int, j: int| 0 <= i && j == i + 1 && j < t.len() implies !(
            #[trigger] t[i] == '-' && #[trigger] t[j] == '-') by {
                assert(t[i] == s[i] && t[j] == s[j]);
            }
        }
        lemma_dashed_neat(t);
        assert(in_name(s[s.len() - 1]));
        if t.len() > 0 {
            assert(t.last() == s[s.len() - 2]);
        }
        assert(t.push(s.last()) =~= s);
    } else {
        assert(dashed(s) =~= s);
    }
}

/// The name of a name is the name itself, unless it was cut off at a dash.
pub proof fn law_slug_idempotent(value: Seq<char>)
    requires
        slug(value).len() > 0 ==> slug(value).last() != '-',
    ensures
        slug(slug(value)) == slug(value),
{
    law_slug_shape(value);
    lemma_dashed_neat(slug(value));
}

/// The name of a sprite is made of the characters of names and is never empty.
pub proof fn law_sprite_name_shape(
    name: Option<Seq<char>>,
    repo: Option<Seq<char>>,
    branch: Option<Seq<char>>,
)
    requires
        selected(name, repo, branch) is Ok,
    ensures
        selected(name, repo, branch)->Ok_0.len() > 0,
        selected(name, repo, branch)->Ok_0.len() <= 2 * SLUG_LIMIT + 1,
        forall|i: int|
            0 <= i < selected(name, repo, branch)->Ok_0.len() ==> in_name(
                #[trigger] selected(name, repo, branch)->Ok_0[i],
            ),
{
    let s = selected(name, repo, branch)->Ok_0;
    reveal_strlit("-");
    if name is Some {
        law_slug_shape(name->0);
    } else {
        law_slug_shape(basename(repo->0));
        law_slug_shape(branch->0);
        let a = slug(basename(repo->0));
        let b = slug(branch->0);
        assert forall|i: int| 0 <= i < s.len() implies in_name(#[trigger] s[i]) by {
            if i < a.len() {
                assert(s[i] == a[i]);
            } else if i == a.len() {
                assert(s[i] == '-');
            } else {
                assert(s[i] == b[i - a.len() - 1]);
            }
        }
    }
}

/// The end of an address that a clone may carry, a number of times.
pub open spec fn git_suffixes(n: nat) -> Seq<char>
    decreases n,
{
    if n == 0 {
        Seq::empty()
    } else {
        git_suffixes((n - 1) as nat) + seq!['.', 'g', 'i', 't']
    }
}

/// Whether a text ends with `.git`.
pub open spec fn ends_in_git(s: Seq<char>) -> bool {
    let n = s.len() as int;
    n >= 4 && s[n - 4] == '.' && s[n - 3] == 'g' && s[n - 2] == 'i' && s[n - 1] == 't'
}

/// Whether no slash and no colon stands in a text.
pub open spec fn one_part(s: Seq<char>) -> bool {
    forall|i: int| 0 <= i < s.len() ==> (#[trigger] s[i]) != '/' && s[i] != ':'
}

/// Whether a text is empty or ends where a part of an address ends.
pub open spec fn parts_end(s: Seq<char>) -> bool {
    s.len() == 0 || s.last() == '/' || s.last() == ':'
}

/// A number of slashes.
pub open spec fn slashes(n: nat) -> Seq<char> {
    Seq::new(n, |i: int| '/')
}

proof fn lemma_last_part_is(front: Seq<char>, part: Seq<char>)
    requires
        parts_end(front),
        one_part(part),
    ensures
        last_part(front + part) == part,
    decreases part.len(),
{
    let s = front + part;
    if part.len() == 0 {
        assert(s =~= front);
        assert(last_part(s) =~= part);
    } else {
        let rest = part.drop_last();
        assert forall|i: int| 0 <= i < rest.len() implies (#[trigger] rest[i]) != '/' && rest[i]
            != ':' by {
            assert(rest[i] == part[i]);
        }
        lemma_last_part_is(front, rest);
        assert(s.drop_last() =~= front + rest);
        assert(s.last() == part[part.len() - 1]);
        assert(rest.push(part.last()) =~= part);
    }
}

proof fn lemma_without_slashes(s: Seq<char>, k: nat)
    requires
        s.len() == 0 || s.last() != '/',
    ensures
        without_back(s + slashes(k), '/') == s,
    decreases k,
{
    let t = s + slashes(k);
    if k == 0 {
        assert(t =~= s);
    } else {
        lemma_without_slashes(s, (k - 1) as nat);
        assert(t.drop_last() =~= s + slashes((k - 1) as nat));
        assert(t.last() == '/');
    }
}

proof fn lemma_git_suffixes(name: Seq<char>, n: nat)
    requires
        one_part(name),
        !ends_in_git(name),
    ensures
        without_git(name + git_suffixes(n)) == name,
        one_part(name + git_suffixes(n)),
    decreases n,
{
    let s = name + git_suffixes(n);
    if n == 0 {
        assert(s =~= name);
        if s.len() >= 4 {
            let tail = s.skip(s.len() - 4);
            assert(tail[0] == s[s.len() - 4] && tail[1] == s[s.len() - 3] && tail[2] == s[s.len()
                - 2] && tail[3] == s[s.len() - 1]);
        }
    } else {
        let m = (n - 1) as nat;
        let t = name + git_suffixes(m);
        let git = seq!['.', 'g', 'i', 't'];
        lemma_git_suffixes(name, m);
        assert(s =~= t + git);
        assert(s.skip(s.len() - 4) =~= git);
        assert(s.take(s.len() - 4) =~= t);
        assert forall|i: int| 0 <= i < s.len() implies (#[trigger] s[i]) != '/' && s[i] != ':' by {
            if i < t.len() {
                assert(s[i] == t[i]);
            } else {
                assert(s[i] == git[i - t.len()]);
            }
        }
    }
}

/// The name of a repository is the last part of its address, between slashes
/// and colons, without the `.git` at its end and without slashes behind it;
/// nothing else is taken away. What stands before the last part does not
/// matter.
pub proof fn law_repo_named_by_last_part(front: Seq<char>, name: Seq<char>, gits: nat, k: nat)
    requires
        parts_end(front),
        one_part(name),
        !ends_in_git(name),
        name.len() + gits > 0 || front.len() == 0 || front.last() == ':',
    ensures
        basename(front + name + git_suffixes(gits) + slashes(k)) == name,
{
    let part = name + git_suffixes(gits);
    lemma_git_suffixes(name, gits);
    let whole = front + part;
    assert(front + name + git_suffixes(gits) + slashes(k) =~= whole + slashes(k));
    if part.len() > 0 {
        assert(whole.last() == part[part.len() - 1]);
    } else {
        assert(whole =~= front);
        if gits > 0 {
            assert(git_suffixes(gits).len() >= 4);
        }
    }
    lemma_without_slashes(whole, k);
    lemma_last_part_is(front, part);
}

/// The owner of a repository is the part before the last one.
pub proof fn law_repo_owned_by_part_before(
    front: Seq<char>,
    who: Seq<char>,
    sep: char,
    part: Seq<char>,
    k: nat,
)
    requires
        parts_end(front),
        one_part(who),
        sep == '/' || sep == ':',
        one_part(part),
        part.len() > 0,
    ensures
        owner(front + who + seq![sep] + part + slashes(k)) == who,
        owner(part + slashes(k)) == Seq::<char>::empty(),
{
    let head = front + who + seq![sep];
    let whole = head + part;
    assert(front + who + seq![sep] + part + slashes(k) =~= whole + slashes(k));
    assert(whole.last() == part[part.len() - 1]);
    lemma_without_slashes(whole, k);
    lemma_last_part_is(head, part);
    assert(whole.take(whole.len() - part.len()) =~= head);
    assert(head.drop_last() =~= front + who);
    lemma_last_part_is(front, who);
    assert(part.last() == part[part.len() - 1]);
    lemma_without_slashes(part, k);
    let none = Seq::<char>::empty();
    assert(none + part =~= part);
    lemma_last_part_is(none, part);
    assert(part.take(0) =~= none);
}

/// Whether a character is a letter of `A` to `Z`, in either case, or a digit.
pub open spec fn letter_or_digit(c: char) -> bool {
    ('a' <= c && c <= 'z') || ('A' <= c && c <= 'Z') || ('0' <= c && c <= '9')
}

/// Whether no letter and no digit stands in a text.
pub open spec fn only_marks(s: Seq<char>) -> bool {
    forall|i: int| 0 <= i < s.len() ==> !letter_or_digit(#[trigger] s[i])
}

/// The first 48 characters of a text.
pub open spec fn first_48(s: Seq<char>) -> Seq<char> {
    if s.len() > 48 {
        s.take(48)
    } else {
        s
    }
}

/// A name before it is cut off.
spec fn uncut(s: Seq<char>) -> Seq<char> {
    without_back(without_front(dashed(s), '-'), '-')
}

/// The dashed form of two texts one after the other: where both meet at a
/// dash, one of the two goes.
proof fn lemma_dashed_parts(a: Seq<char>, b: Seq<char>)
    ensures
        ({
            let (x, y) = (dashed(a), dashed(b));
            dashed(a + b) == if x.len() > 0 && y.len() > 0 && x.last() == '-' && y[0] == '-' {
                x + y.skip(1)
            } else {
                x + y
            }
        }),
        b.len() > 0 <==> dashed(b).len() > 0,
    decreases b.len(),
{
    let (x, y) = (dashed(a), dashed(b));
    if b.len() == 0 {
        assert(a + b =~= a);
        assert(x + y =~= x);
    } else {
        let c = b.drop_last();
        lemma_dashed_parts(a, c);
        assert((a + b).drop_last() =~= a + c);
        assert((a + b).last() == b.last());
        let z = dashed(c);
        let d = normal(b.last());
        let before = dashed(a + c);
        if c.len() == 0 {
            assert(a + c =~= a);
            assert(z.len() == 0);
            assert(y =~= seq![d]);
            if d == '-' && x.len() > 0 && x.last() == '-' {
                assert(x + y.skip(1) =~= x);
            } else {
                assert(x.push(d) =~= x + y);
            }
        } else {
            assert(y[0] == z[0]);
            let merged = x.len() > 0 && x.last() == '-' && z[0] == '-';
            if merged && z.len() == 1 {
                assert(z =~= seq!['-']);
                assert(x + z.skip(1) =~= x);
                if d == '-' {
                    assert(y == z);
                } else {
                    assert(y =~= seq!['-', d]);
                    assert(y.skip(1) =~= seq![d]);
                    assert(x.push(d) =~= x + y.skip(1));
                }
            } else {
                assert(before.last() == z.last());
                if d == '-' && z.last() == '-' {
                } else if merged {
                    assert(before.push(d) =~= x + y.skip(1));
                } else {
                    assert(before.push(d) =~= x + y);
                }
            }
        }
    }
}

proof fn lemma_dashed_ends(s: Seq<char>)
    requires
        s.len() > 0,
    ensures
        dashed(s).len() > 0,
        dashed(s)[0] == normal(s[0]),
        dashed(s).last() == normal(s.last()),
    decreases s.len(),
{
    let rest = s.drop_last();
    if rest.len() > 0 {
        lemma_dashed_ends(rest);
        assert(rest[0] == s[0]);
    } else {
        assert(dashed(rest).len() == 0);
    }
}

proof fn lemma_dashed_marks(s: Seq<char>)
    requires
        only_marks(s),
        s.len() > 0,
    ensures
        dashed(s) == seq!['-'],
    decreases s.len(),
{
    let rest = s.drop_last();
    assert(!letter_or_digit(s[s.len() - 1]));
    if rest.len() > 0 {
        assert forall|i: int| 0 <= i < rest.len() implies !letter_or_digit(#[trigger] rest[i]) by {
            assert(rest[i] == s[i]);
        }
        lemma_dashed_marks(rest);
    } else {
        reveal_with_fuel(dashed, 2);
        assert(dashed(s) =~= seq!['-']);
    }
}

proof fn lemma_front_of_sum(x: Seq<char>, y: Seq<char>)
    requires
        x.len() > 0,
        x.last() != '-',
    ensures
        without_front(x + y, '-') == without_front(x, '-') + y,
        without_front(x, '-').len() > 0,
        without_front(x, '-').last() != '-',
{
    let k = lemma_without_front(x, '-');
    let j = lemma_without_front(x + y, '-');
    let z = x + y;
    assert(k < x.len()) by {
        if k == x.len() {
            assert(x[x.len() - 1] == '-');
        }
    }
    assert(z[k] == x[k]);
    if j < k {
        assert(z[j] == x[j]);
    }
    if j > k {
        assert(z[k] == '-');
    }
    assert(z.skip(k) =~= x.skip(k) + y);
}

proof fn lemma_back_of_sum(x: Seq<char>, y: Seq<char>)
    requires
        y.len() > 0,
        y[0] != '-',
    ensures
        without_back(x + y, '-') == x + without_back(y, '-'),
        without_back(y, '-').len() > 0,
{
    let k = lemma_without_back(y, '-');
    let z = x + y;
    let j = lemma_without_back(z, '-');
    let n = x.len() as int;
    assert(k > 0) by {
        if k == 0 {
            assert(y[0] == '-');
        }
    }
    assert(z[n + k - 1] == y[k - 1]);
    if j > n + k {
        assert(z[j - 1] == y[j - 1 - n]);
    }
    if j < n + k {
        assert(z[n + k - 1] == '-');
    }
    assert(z.take(n + k) =~= x + y.take(k));
}

/// What is said of two texts that meet at letters, before names are cut off.
proof fn lemma_uncut_sum(a: Seq<char>, gap: Seq<char>, b: Seq<char>)
    requires
        a.len() > 0,
        letter_or_digit(a.last()),
        only_marks(gap),
        b.len() > 0,
        letter_or_digit(b[0]),
    ensures
        uncut(a + gap + b) == uncut(a) + (if gap.len() > 0 {
            seq!['-']
        } else {
            Seq::empty()
        }) + uncut(b),
        uncut(a).len() > 0,
        uncut(b).len() > 0,
{
    let g = dashed(gap);
    lemma_dashed_ends(a);
    lemma_dashed_ends(b);
    lemma_dashed_parts(a + gap, b);
    lemma_dashed_parts(a, gap);
    let (x, y) = (dashed(a), dashed(b));
    let dash = if gap.len() > 0 {
        seq!['-']
    } else {
        Seq::<char>::empty()
    };
    if gap.len() > 0 {
        lemma_dashed_marks(gap);
    } else {
        assert(g =~= dash);
    }
    assert(dashed(a + gap) =~= x + dash);
    assert(dashed(a + gap + b) =~= x + (dash + y));
    lemma_front_of_sum(x, dash + y);
    lemma_front_of_sum(x, Seq::empty());
    assert(x + Seq::<char>::empty() =~= x);
    let f = without_front(x, '-');
    assert(f + (dash + y) =~= (f + dash) + y);
    lemma_back_of_sum(f + dash, y);
    let ka = lemma_without_back(f, '-');
    assert(ka == f.len()) by {
        if ka < f.len() {
            assert(f[f.len() - 1] == '-');
        }
    }
    assert(f.take(f.len() as int) =~= f);
    let kb = lemma_without_front(y, '-');
    assert(y.skip(0) =~= y);
}

/// How names are put together. A letter or digit alone is its own name, in
/// lower case. Two texts that meet at letters or digits give both names, with
/// one dash between them where anything else stands between the texts; marks
/// around a text change nothing. A name is cut off after 48 characters.
pub proof fn law_slug_of_parts(a: Seq<char>, gap: Seq<char>, b: Seq<char>, c: char)
    requires
        only_marks(gap),
    ensures
        letter_or_digit(c) ==> {
            &&& slug(seq![c]).len() == 1
            &&& 'A' <= c && c <= 'Z' ==> slug(seq![c])[0] as int == c as int + 32
            &&& !('A' <= c && c <= 'Z') ==> slug(seq![c])[0] == c
        },
        a.len() > 0 && b.len() > 0 && letter_or_digit(a.last()) && letter_or_digit(b[0])
            ==> slug(a + gap + b) == first_48(
            slug(a) + (if gap.len() > 0 {
                seq!['-']
            } else {
                Seq::empty()
            }) + slug(b),
        ),
        slug(gap) == Seq::<char>::empty(),
        a.len() > 0 && letter_or_digit(a[0]) ==> slug(gap + a) == slug(a),
        a.len() > 0 && letter_or_digit(a.last()) ==> slug(a + gap) == slug(a),
        slug(a).len() <= 48,
{
    law_slug_shape(a);
    if letter_or_digit(c) {
        let one = seq![c];
        assert(one.drop_last() =~= Seq::empty());
        reveal_with_fuel(dashed, 2);
        assert(dashed(one) =~= seq![normal(c)]);
        assert(without_front(seq![normal(c)], '-') == seq![normal(c)]);
    }
    if a.len() > 0 && b.len() > 0 && letter_or_digit(a.last()) && letter_or_digit(b[0]) {
        lemma_uncut_sum(a, gap, b);
        let dash = if gap.len() > 0 {
            seq!['-']
        } else {
            Seq::<char>::empty()
        };
        let whole = uncut(a) + dash + uncut(b);
        assert(slug(a + gap + b) =~= first_48(slug(a) + dash + slug(b)));
    }
    if has_alnum(gap) {
        let i = choose|i: int| 0 <= i < gap.len() && is_alnum(#[trigger] gap[i]);
        assert(letter_or_digit(gap[i]));
    }
    law_slug_shape(gap);
    assert(slug(gap) =~= Seq::empty());
    if gap.len() > 0 {
        lemma_dashed_marks(gap);
        if a.len() > 0 && letter_or_digit(a[0]) {
            lemma_dashed_parts(gap, a);
            lemma_dashed_ends(a);
            let y = dashed(a);
            let z = seq!['-'] + y;
            assert(z.skip(1) =~= y);
            assert(without_front(z, '-') == without_front(y, '-'));
        }
        if a.len() > 0 && letter_or_digit(a.last()) {
            lemma_dashed_parts(a, gap);
            lemma_dashed_ends(a);
            let x = dashed(a);
            lemma_front_of_sum(x, seq!['-']);
            lemma_front_of_sum(x, Seq::empty());
            let f = without_front(x, '-');
            assert(f + seq!['-'] =~= f.push('-'));
            assert((f.push('-')).drop_last() =~= f);
        }
    } else {
        assert(gap + a =~= a);
        assert(a + gap =~= a);
    }
}

/// A sprite is named after what selects it, and nothing else: after a name
/// alone, or after a repository and a branch with a dash between them. Any
/// other selection is refused, and so is one that leaves no letter or digit.
pub proof fn law_sprite_named_after_selection(name: Seq<char>, repo: Seq<char>, branch: Seq<char>)
    ensures
        slug(name).len() > 0 ==> selected(Some(name), None, None) == Ok::<Seq<char>, Seq<char>>(
            slug(name),
        ),
        slug(name).len() == 0 ==> selected(Some(name), None, None) is Err,
        slug(basename(repo)).len() > 0 && slug(branch).len() > 0 ==> selected(
            None,
            Some(repo),
            Some(branch),
        ) == Ok::<Seq<char>, Seq<char>>(slug(basename(repo)) + seq!['-'] + slug(branch)),
        slug(basename(repo)).len() == 0 || slug(branch).len() == 0 ==> selected(
            None,
            Some(repo),
            Some(branch),
        ) is Err,
        selected(Some(name), Some(repo), None) is Err,
        selected(Some(name), None, Some(branch)) is Err,
        selected(Some(name), Some(repo), Some(branch)) is Err,
        selected(None, Some(repo), None) is Err,
        selected(None, None, Some(branch)) is Err,
        selected(None, None, None) is Err,
{
    reveal_strlit("-");
    assert("-"@ =~= seq!['-']);
}

} // verus!
