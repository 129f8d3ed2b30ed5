//! Paths inside a share, as sequences of components.
//!
//! A path is held parsed: repeated and trailing separators and inner `.`
//! components leave no trace, so two spellings of one path are equal.

use vstd::prelude::*;

use crate::text::{split, str_eq};

verus! {

/// One component of a path.
#[derive(Debug, PartialEq, Eq)]
pub enum Component {
    RootDir,
    CurDir,
    ParentDir,
    Normal(String),
}

/// What a component is, with its name as a sequence of characters.
pub enum Comp {
    RootDir,
    CurDir,
    ParentDir,
    Normal(Seq<char>),
}

impl View for Component {
    type V = Comp;

    open spec fn view(&self) -> Comp {
        match self {
            Component::RootDir => Comp::RootDir,
            Component::CurDir => Comp::CurDir,
            Component::ParentDir => Comp::ParentDir,
            Component::Normal(s) => Comp::Normal(s@),
        }
    }
}

/// A parsed path.
#[derive(Debug, PartialEq, Eq)]
pub struct HostPath {
    components: Vec<Component>,
}

/// Whether a sequence of components can come out of parsing: a root or a `.`
/// stands only at the start.
pub open spec fn parsed(p: Seq<Comp>) -> bool {
    forall|i: int| 0 < i < p.len() ==> (#[trigger] p[i] is Normal || p[i] is ParentDir)
}

/// The views of a sequence of components.
pub open spec fn comps(v: Seq<Component>) -> Seq<Comp> {
    Seq::new(v.len(), |i: int| v[i]@)
}

impl View for HostPath {
    type V = Seq<Comp>;

    closed spec fn view(&self) -> Seq<Comp> {
        comps(self.components@)
    }
}

impl HostPath {
    #[verifier::type_invariant]
    pub open spec fn well_formed(&self) -> bool {
        parsed(self@)
    }
}

/// Parsing gives parsed paths.
pub proof fn lemma_parse_parsed(s: Seq<char>)
    ensures
        parsed(parse_path(s)),
{
    if s.len() > 0 {
        lemma_pieces_parsed(crate::text::split_on(s, '/'));
    }
}

proof fn lemma_pieces_parsed(pieces: Seq<Seq<char>>)
    ensures
        parsed(pieces_components(pieces)),
        pieces.len() <= 1 ==> pieces_components(pieces).len() <= 1,
    decreases pieces.len(),
{
    if pieces.len() > 0 {
        lemma_pieces_parsed(pieces.drop_last());
        if pieces.len() == 1 {
            assert(pieces_components(pieces.drop_last()).len() == 0);
        }
    }
}

/// Joining parsed paths gives a parsed path.
pub proof fn lemma_join_parsed(base: Seq<Comp>, rel: Seq<Comp>)
    requires
        parsed(base),
        parsed(rel),
    ensures
        parsed(join_path(base, rel)),
{
    let j = join_path(base, rel);
    assert forall|i: int| 0 < i < j.len() implies (#[trigger] j[i] is Normal || j[i] is ParentDir) by {
        if rel.len() > 0 && rel[0] is RootDir {
        } else if base.len() > 0 && rel.len() > 0 && rel[0] is CurDir {
            if i >= base.len() {
                assert(j[i] == rel[i - base.len() + 1]);
            }
        } else if i >= base.len() {
            assert(j[i] == rel[i - base.len()]);
        }
    }
}

/// The component that the `i`-th piece between separators stands for, if any.
pub open spec fn piece_component(i: int, piece: Seq<char>) -> Option<Comp> {
    if piece.len() == 0 {
        if i == 0 {
            Some(Comp::RootDir)
        } else {
            None
        }
    } else if piece == seq!['.'] {
        if i == 0 {
            Some(Comp::CurDir)
        } else {
            None
        }
    } else if piece == seq!['.', '.'] {
        Some(Comp::ParentDir)
    } else {
        Some(Comp::Normal(piece))
    }
}

/// The components of the pieces, in order.
pub open spec fn pieces_components(pieces: Seq<Seq<char>>) -> Seq<Comp>
    decreases pieces.len(),
{
    if pieces.len() == 0 {
        Seq::empty()
    } else {
        let before = pieces_components(pieces.drop_last());
        match piece_component(pieces.len() - 1, pieces.last()) {
            Some(c) => before.push(c),
            None => before,
        }
    }
}

/// The components of the path written `s`.
pub open spec fn parse_path(s: Seq<char>) -> Seq<Comp> {
    if s.len() == 0 {
        Seq::empty()
    } else {
        pieces_components(crate::text::split_on(s, '/'))
    }
}

/// `rel` put behind `base`: a rooted `rel` replaces it.
pub open spec fn join_path(base: Seq<Comp>, rel: Seq<Comp>) -> Seq<Comp> {
    if rel.len() > 0 && rel[0] is RootDir {
        rel
    } else if base.len() > 0 && rel.len() > 0 && rel[0] is CurDir {
        base + rel.drop_first()
    } else {
        base + rel
    }
}

/// Whether `p` is `base` or lies below it.
pub open spec fn under(p: Seq<Comp>, base: Seq<Comp>) -> bool {
    base.len() <= p.len() && p.subrange(0, base.len() as int) == base
}

/// The path without its last component; a root and the empty path have none.
pub open spec fn parent_path(p: Seq<Comp>) -> Option<Seq<Comp>> {
    if p.len() == 0 || p.last() is RootDir {
        None
    } else {
        Some(p.drop_last())
    }
}

/// The last component, where it is a name.
pub open spec fn final_name(p: Seq<Comp>) -> Option<Seq<char>> {
    if p.len() == 0 {
        None
    } else {
        match p.last() {
            Comp::Normal(s) => Some(s),
            _ => None,
        }
    }
}

impl Component {
    /// Whether two components are the same.
    pub fn same(&self, other: &Component) -> (r: bool)
        ensures
            r == (self@ == other@),
    {
        match (self, other) {
            (Component::RootDir, Component::RootDir) => true,
            (Component::CurDir, Component::CurDir) => true,
            (Component::ParentDir, Component::ParentDir) => true,
            (Component::Normal(a), Component::Normal(b)) => *a == *b,
            _ => false,
        }
    }
}

impl Clone for Component {
    fn clone(&self) -> (r: Self)
        ensures
            r@ == self@,
    {
        match self {
            Component::RootDir => Component::RootDir,
            Component::CurDir => Component::CurDir,
            Component::ParentDir => Component::ParentDir,
            Component::Normal(a) => Component::Normal(a.clone()),
        }
    }
}

fn component_of(i: usize, piece: &String) -> (r: Option<Component>)
    ensures
        (match r {
            Some(c) => Some(c@),
            None => None,
        }) == piece_component(i as int, piece@),
{
    proof {
        reveal_strlit("");
        reveal_strlit(".");
        reveal_strlit("..");
        assert("."@ =~= seq!['.']);
        assert(".."@ =~= seq!['.', '.']);
    }
    if str_eq(piece, "") {
        assert(piece@.len() == 0);
        if i == 0 {
            Some(Component::RootDir)
        } else {
            None
        }
    } else {
        proof {
            if piece@.len() == 0 {
                assert(piece@ =~= ""@);
            }
        }
        if str_eq(piece, ".") {
            if i == 0 {
                Some(Component::CurDir)
            } else {
                None
            }
        } else if str_eq(piece, "..") {
            Some(Component::ParentDir)
        } else {
            Some(Component::Normal(piece.clone()))
        }
    }
}

impl HostPath {
    /// Parse a path.
    pub fn new(s: &str) -> (r: HostPath)
        ensures
            r@ == parse_path(s@),
    {
        if s.is_empty() {
            return HostPath::empty();
        }
        let pieces: Vec<String> = split(s, '/');
        let ghost pv = crate::text::views(pieces@);
        let mut out: Vec<Component> = Vec::new();
        let mut i: usize = 0;
        proof {
            assert(pv.take(0) =~= Seq::empty());
            assert(comps(out@) =~= pieces_components(pv.take(0)));
        }
        while i < pieces.len()
            invariant
                i <= pieces.len(),
                pv == crate::text::views(pieces@),
                comps(out@) == pieces_components(pv.take(i as int)),
            decreases pieces.len() - i,
        {
            proof {
                assert(pv.take(i + 1).drop_last() =~= pv.take(i as int));
                assert(pv.take(i + 1).last() == pieces@[i as int]@);
            }
            let ghost before = out@;
            match component_of(i, &pieces[i]) {
                Some(c) => {
                    out.push(c);
                    assert(comps(out@) =~= comps(before).push(c@));
                },
                None => {},
            }
            i += 1;
        }
        proof {
            assert(pv.take(pv.len() as int) =~= pv);
            lemma_parse_parsed(s@);
        }
        HostPath { components: out }
    }

    /// The path with no components.
    pub fn empty() -> (r: HostPath)
        ensures
            r@ == Seq::<Comp>::empty(),
    {
        let none: Vec<Component> = Vec::new();
        assert(comps(none@) =~= Seq::<Comp>::empty());
        HostPath { components: none }
    }

    /// The path that is a dot.
    pub fn dot() -> (r: HostPath)
        ensures
            r@ == seq![Comp::CurDir],
    {
        let mut one: Vec<Component> = Vec::new();
        one.push(Component::CurDir);
        assert(comps(one@) =~= seq![Comp::CurDir]);
        HostPath { components: one }
    }

    /// The first `n` components.
    pub fn prefix(&self, n: usize) -> (r: HostPath)
        requires
            n <= self@.len(),
        ensures
            r@ == self@.take(n as int),
    {
        proof {
            use_type_invariant(self);
        }
        let mut out: Vec<Component> = Vec::new();
        let mut i: usize = 0;
        while i < n
            invariant
                i <= n <= self.components.len(),
                comps(out@) == self@.take(i as int),
            decreases n - i,
        {
            let ghost before = out@;
            out.push(self.components[i].clone());
            proof {
                assert(comps(out@) =~= comps(before).push(self@[i as int]));
                assert(self@.take(i + 1) =~= self@.take(i as int).push(self@[i as int]));
            }
            i += 1;
        }
        HostPath { components: out }
    }

    /// Whether two paths have the same components.
    pub fn same(&self, other: &HostPath) -> (r: bool)
        ensures
            r == (self@ == other@),
    {
        if self.components.len() != other.components.len() {
            return false;
        }
        let r = self.starts_with(other);
        assert(self@.subrange(0, other@.len() as int) =~= self@);
        r
    }

    /// Whether `base` is this path or one of its ancestors.
    pub fn starts_with(&self, base: &HostPath) -> (r: bool)
        ensures
            r == under(self@, base@),
    {
        if base.components.len() > self.components.len() {
            return false;
        }
        let mut i: usize = 0;
        while i < base.components.len()
            invariant
                i <= base.components.len() <= self.components.len(),
                forall|j: int| 0 <= j < i ==> self@[j] == base@[j],
            decreases base.components.len() - i,
        {
            if !self.components[i].same(&base.components[i]) {
                proof {
                    assert(self@.subrange(0, base@.len() as int)[i as int] == self@[i as int]);
                    assert(self@[i as int] != base@[i as int]);
                }
                return false;
            }
            i += 1;
        }
        assert(self@.subrange(0, base@.len() as int) =~= base@);
        true
    }

    /// What is left of the path below `base`.
    pub fn strip_prefix(&self, base: &HostPath) -> (r: Option<HostPath>)
        ensures
            r is Some <==> under(self@, base@),
            r matches Some(rest) ==> self@ == base@ + rest@,
    {
        if !self.starts_with(base) {
            return None;
        }
        let rest = self.suffix(base.components.len());
        assert(self@ =~= base@ + rest@);
        Some(rest)
    }

    /// The components from the `n`-th on.
    pub fn suffix(&self, n: usize) -> (r: HostPath)
        requires
            n <= self@.len(),
        ensures
            r@ == self@.skip(n as int),
    {
        proof {
            use_type_invariant(self);
        }
        let mut out: Vec<Component> = Vec::new();
        let mut i: usize = n;
        while i < self.components.len()
            invariant
                n <= i <= self.components.len(),
                comps(out@) == self@.subrange(n as int, i as int),
            decreases self.components.len() - i,
        {
            let ghost before = out@;
            out.push(self.components[i].clone());
            proof {
                assert(comps(out@) =~= comps(before).push(self@[i as int]));
                assert(self@.subrange(n as int, i + 1) =~= self@.subrange(n as int, i as int).push(
                    self@[i as int],
                ));
            }
            i += 1;
        }
        HostPath { components: out }
    }

    /// `rel` put behind this path.
    pub fn join_to(&self, rel: &HostPath) -> (r: HostPath)
        ensures
            r@ == join_path(self@, rel@),
    {
        let mut start: usize = 0;
        if rel.components.len() > 0 {
            if rel.components[0].same(&Component::RootDir) {
                return rel.clone();
            }
            if self.components.len() > 0 && rel.components[0].same(&Component::CurDir) {
                start = 1;
            }
        }
        let mut out: Vec<Component> = Vec::new();
        let mut k: usize = 0;
        while k < self.components.len()
            invariant
                k <= self.components.len(),
                comps(out@) == self@.take(k as int),
            decreases self.components.len() - k,
        {
            let ghost before = out@;
            out.push(self.components[k].clone());
            proof {
                assert(comps(out@) =~= comps(before).push(self@[k as int]));
                assert(self@.take(k + 1) =~= self@.take(k as int).push(self@[k as int]));
            }
            k += 1;
        }
        let mut i: usize = start;
        assert(comps(out@) =~= self@ + rel@.subrange(start as int, start as int));
        while i < rel.components.len()
            invariant
                start <= i <= rel.components.len(),
                comps(out@) == self@ + rel@.subrange(start as int, i as int),
            decreases rel.components.len() - i,
        {
            let ghost before = out@;
            out.push(rel.components[i].clone());
            proof {
                assert(comps(out@) =~= comps(before).push(rel@[i as int]));
                assert(rel@.subrange(start as int, i + 1) =~= rel@.subrange(
                    start as int,
                    i as int,
                ).push(rel@[i as int]));
            }
            i += 1;
        }
        proof {
            if start == 0 {
                assert(rel@.subrange(0, rel@.len() as int) =~= rel@);
            } else {
                assert(rel@.subrange(1, rel@.len() as int) =~= rel@.drop_first());
            }
            assert(comps(out@) == join_path(self@, rel@));
            use_type_invariant(self);
            use_type_invariant(rel);
            lemma_join_parsed(self@, rel@);
        }
        HostPath { components: out }
    }

    /// The path written `rel` put behind this path.
    pub fn join(&self, rel: &str) -> (r: HostPath)
        ensures
            r@ == join_path(self@, parse_path(rel@)),
    {
        let p = HostPath::new(rel);
        self.join_to(&p)
    }

    /// The path of the entry `name` below this path.
    pub fn child(&self, name: &String) -> (r: HostPath)
        ensures
            r@ == self@.push(Comp::Normal(name@)),
    {
        let mut out: Vec<Component> = Vec::new();
        let mut k: usize = 0;
        while k < self.components.len()
            invariant
                k <= self.components.len(),
                comps(out@) == self@.take(k as int),
            decreases self.components.len() - k,
        {
            let ghost before = out@;
            out.push(self.components[k].clone());
            proof {
                assert(comps(out@) =~= comps(before).push(self@[k as int]));
                assert(self@.take(k + 1) =~= self@.take(k as int).push(self@[k as int]));
            }
            k += 1;
        }
        let ghost before = out@;
        out.push(Component::Normal(name.clone()));
        proof {
            use_type_invariant(self);
            assert(self@.take(self@.len() as int) =~= self@);
            assert(comps(out@) =~= self@.push(Comp::Normal(name@)));
        }
        HostPath { components: out }
    }

    /// The path without its last component.
    pub fn parent(&self) -> (r: Option<HostPath>)
        ensures
            r is Some <==> parent_path(self@) is Some,
            r matches Some(p) ==> p@ == parent_path(self@)->0,
    {
        let n: usize = self.components.len();
        if n == 0 || self.components[n - 1].same(&Component::RootDir) {
            None
        } else {
            let r = self.prefix(n - 1);
            assert(self@.take(n - 1) =~= self@.drop_last());
            Some(r)
        }
    }

    /// The last component, where it is a name.
    pub fn file_name(&self) -> (r: Option<String>)
        ensures
            r is Some <==> final_name(self@) is Some,
            r matches Some(s) ==> s@ == final_name(self@)->0,
    {
        let n: usize = self.components.len();
        if n == 0 {
            return None;
        }
        match &self.components[n - 1] {
            Component::Normal(s) => Some(s.clone()),
            _ => None,
        }
    }

    /// The number of components.
    pub fn len(&self) -> (n: usize)
        ensures
            n == self@.len(),
    {
        self.components.len()
    }

    /// The component at `i`.
    pub fn component(&self, i: usize) -> (r: &Component)
        requires
            i < self@.len(),
        ensures
            r@ == self@[i as int],
    {
        &self.components[i]
    }

    /// Whether the path has no components.
    pub fn is_empty(&self) -> (r: bool)
        ensures
            r == (self@.len() == 0),
    {
        self.components.len() == 0
    }
}

impl Clone for HostPath {
    fn clone(&self) -> (r: Self)
        ensures
            r@ == self@,
    {
        let r = self.prefix(self.components.len());
        assert(self@.take(self@.len() as int) =~= self@);
        r
    }
}

/// A path written as one plain name is that name alone.
pub proof fn law_plain_name(s: Seq<char>)
    requires
        s.len() > 0,
        !s.contains('/'),
        s != seq!['.'],
        s != seq!['.', '.'],
    ensures
        parse_path(s) == seq![Comp::Normal(s)],
{
    lemma_split_none(s, '/');
    let pieces = crate::text::split_on(s, '/');
    assert(pieces.drop_last() =~= Seq::empty());
    assert(pieces.last() == s);
    assert(pieces_components(pieces.drop_last()) =~= Seq::empty());
    assert(parse_path(s) =~= seq![Comp::Normal(s)]);
}

proof fn lemma_split_none(s: Seq<char>, sep: char)
    requires
        !s.contains(sep),
    ensures
        crate::text::split_on(s, sep) == seq![s],
    decreases s.len(),
{
    if s.len() == 0 {
        assert(s =~= Seq::empty());
    } else {
        assert(s[s.len() - 1] == s.last());
        assert forall|i: int| 0 <= i < s.drop_last().len() implies s.drop_last()[i] != sep by {
            assert(s[i] == s.drop_last()[i]);
        }
        lemma_split_none(s.drop_last(), sep);
        assert(s.drop_last().push(s.last()) =~= s);
        assert(crate::text::split_on(s, sep) =~= seq![s]);
    }
}

/// Putting back what was taken off below `base` gives the path again.
pub proof fn lemma_rebase_inverse(p: Seq<Comp>, base: Seq<Comp>)
    requires
        under(p, base),
    ensures
        base + p.skip(base.len() as int) == p,
{
    assert(base + p.skip(base.len() as int) =~= p);
}

/// Whether a text is the name of an entry: it is not empty, holds no
/// separator, and is neither `.` nor `..`.
pub open spec fn plain_name(s: Seq<char>) -> bool {
    &&& s.len() > 0
    &&& forall|i: int| 0 <= i < s.len() ==> s[i] != '/'
    &&& !(s.len() == 1 && s[0] == '.')
    &&& !(s.len() == 2 && s[0] == '.' && s[1] == '.')
}

/// A number of separators.
pub open spec fn separators(n: nat) -> Seq<char> {
    Seq::new(n, |i: int| '/')
}

/// What a separator and one more piece do to a path: a name and `..` are one
/// component more; nothing, and a `.`, leave the path as it is. A path that
/// begins with a separator is rooted.
pub proof fn law_path_pieces(s: Seq<char>, piece: Seq<char>)
    requires
        forall|i: int| 0 <= i < piece.len() ==> piece[i] != '/',
    ensures
        parse_path(Seq::empty()) == Seq::<Comp>::empty(),
        parse_path(seq!['.']) == seq![Comp::CurDir],
        parse_path(seq!['.', '.']) == seq![Comp::ParentDir],
        plain_name(piece) ==> parse_path(piece) == seq![Comp::Normal(piece)],
        ({
            let whole = parse_path(s + seq!['/'] + piece);
            let before = if s.len() == 0 {
                seq![Comp::RootDir]
            } else {
                parse_path(s)
            };
            &&& piece.len() == 0 ==> whole == before
            &&& piece == seq!['.'] ==> whole == before
            &&& piece == seq!['.', '.'] ==> whole == before.push(Comp::ParentDir)
            &&& plain_name(piece) ==> whole == before.push(Comp::Normal(piece))
        }),
{
    lemma_one_piece(seq!['.']);
    lemma_one_piece(seq!['.', '.']);
    lemma_one_piece(piece);
    crate::text::law_split_pieces(s, '/', piece);
    crate::text::lemma_split_pieces(s, '/');
    let pieces = crate::text::split_on(s, '/');
    assert(pieces.push(piece).drop_last() =~= pieces);
    if s.len() == 0 {
        assert(s =~= Seq::empty());
        assert(pieces =~= seq![Seq::empty()]);
        assert(pieces.drop_last() =~= Seq::empty());
        assert(pieces_components(pieces) =~= seq![Comp::RootDir]) by {
            reveal_with_fuel(pieces_components, 2);
        }
    }
}

proof fn lemma_one_piece(piece: Seq<char>)
    requires
        forall|i: int| 0 <= i < piece.len() ==> piece[i] != '/',
    ensures
        piece.len() > 0 ==> parse_path(piece) == match piece_component(0, piece) {
            Some(c) => seq![c],
            None => Seq::empty(),
        },
{
    crate::text::law_split_pieces(Seq::empty(), '/', piece);
    if piece.len() > 0 {
        let pieces = seq![piece];
        assert(pieces.drop_last() =~= Seq::empty());
        reveal_with_fuel(pieces_components, 2);
        assert(parse_path(piece) =~= match piece_component(0, piece) {
            Some(c) => seq![c],
            None => Seq::empty(),
        });
    }
}

/// The last component of a path is the name behind its last separator, however
/// many separators follow it.
pub proof fn law_final_name(front: Seq<char>, name: Seq<char>, k: nat)
    requires
        front.len() == 0 || front.last() == '/',
        plain_name(name),
    ensures
        parse_path(front + name + separators(k)).len() > 0,
        parse_path(front + name + separators(k)).last() == Comp::Normal(name),
        final_name(parse_path(front + name + separators(k))) == Some(name),
    decreases k,
{
    let whole = front + name + separators(k);
    if k == 0 {
        if front.len() == 0 {
            law_path_pieces(front, name);
            assert(whole =~= name);
        } else {
            law_path_pieces(front.drop_last(), name);
            assert(whole =~= front.drop_last() + seq!['/'] + name);
        }
    } else {
        law_final_name(front, name, (k - 1) as nat);
        let before = front + name + separators((k - 1) as nat);
        law_path_pieces(before, Seq::empty());
        assert(whole =~= before + seq!['/'] + Seq::empty());
    }
}

/// A name put behind a path is its last component, with the path as its
/// parent; a rooted path put behind another replaces it.
pub proof fn law_join_name(base: Seq<Comp>, name: Seq<char>, rest: Seq<Comp>)
    requires
        plain_name(name),
    ensures
        join_path(base, parse_path(name)) == base.push(Comp::Normal(name)),
        parent_path(base.push(Comp::Normal(name))) == Some(base),
        final_name(base.push(Comp::Normal(name))) == Some(name),
        join_path(base, seq![Comp::RootDir] + rest) == seq![Comp::RootDir] + rest,
        under(base.push(Comp::Normal(name)), base),
        !under(base, base.push(Comp::Normal(name))),
{
    law_path_pieces(Seq::empty(), name);
    let child = base.push(Comp::Normal(name));
    assert(base + seq![Comp::Normal(name)] =~= child);
    assert(child.drop_last() =~= base);
    assert(child.subrange(0, base.len() as int) =~= base);
    assert((seq![Comp::RootDir] + rest)[0] is RootDir);
}

} // verus!
