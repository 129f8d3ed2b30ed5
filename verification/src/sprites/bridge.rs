//! The bridge: escape sequences in console output that ask the host to act.
//!
//! A sequence is `ESC ] 9999 ; verb ; payload` up to `BEL` or `ESC \`. The
//! filter takes the sequences out of the output and hands them on; a sequence
//! that is cut by the end of a frame is held back until the next one.

use vstd::prelude::*;

use crate::payload::copy_range;

verus! {

/// How many bytes of a sequence are held back at most.
pub const MAX_HELD: usize = 8192;

/// How a sequence begins: `ESC ] 9999 ;`.
pub open spec fn osc_start() -> Seq<u8> {
    seq![0x1bu8, 0x5du8, 0x39u8, 0x39u8, 0x39u8, 0x39u8, 0x3bu8]
}

/// Whether `s` begins with `p`.
pub open spec fn begins(s: Seq<u8>, p: Seq<u8>) -> bool {
    p.len() <= s.len() && s.take(p.len() as int) == p
}

/// Where the first terminator at or after `i` ends, if there is one.
pub open spec fn terminator_end(data: Seq<u8>, i: int) -> Option<int>
    decreases data.len() - i,
{
    if i < 0 || i >= data.len() {
        None
    } else if data[i] == 0x07 {
        Some(i + 1)
    } else if data[i] == 0x1b && i + 1 < data.len() && data[i + 1] == 0x5c {
        Some(i + 2)
    } else {
        terminator_end(data, i + 1)
    }
}

/// What the filter makes of bytes: what is passed on, the sequences, and what
/// is held back.
pub struct Filtered {
    pub output: Seq<u8>,
    pub sequences: Seq<Seq<u8>>,
    pub held: Seq<u8>,
}

pub open spec fn nothing() -> Filtered {
    Filtered { output: Seq::empty(), sequences: Seq::empty(), held: Seq::empty() }
}

/// One result after the other; what the first held back was taken up by the
/// second.
pub open spec fn joined(a: Filtered, b: Filtered) -> Filtered {
    Filtered {
        output: a.output + b.output,
        sequences: a.sequences + b.sequences,
        held: b.held,
    }
}

/// What becomes of bytes when nothing is held back from before. A sequence
/// that begins and does not end, and a beginning of one at the very end, are
/// held back.
pub open spec fn scan(data: Seq<u8>) -> Filtered
    decreases data.len(),
{
    if data.len() == 0 {
        nothing()
    } else if begins(data, osc_start()) {
        match terminator_end(data, 7) {
            Some(e) => if 0 < e <= data.len() {
                joined(
                    Filtered {
                        output: Seq::empty(),
                        sequences: seq![data.take(e)],
                        held: Seq::empty(),
                    },
                    scan(data.skip(e)),
                )
            } else {
                nothing()
            },
            None => Filtered { output: Seq::empty(), sequences: Seq::empty(), held: data },
        }
    } else if begins(osc_start(), data) {
        Filtered { output: Seq::empty(), sequences: Seq::empty(), held: data }
    } else {
        joined(
            Filtered { output: seq![data[0]], sequences: Seq::empty(), held: Seq::empty() },
            scan(data.skip(1)),
        )
    }
}

/// What becomes of held back bytes when more arrive: whether and how the
/// sequence ends, and the bytes that are left. A beginning that turns out to
/// be something else is passed on, and the byte that broke it is looked at
/// anew; a sequence that grows too long is passed on as well.
pub open spec fn absorb(held: Seq<u8>, data: Seq<u8>) -> (Filtered, Seq<u8>)
    decreases data.len(),
{
    if data.len() == 0 {
        (Filtered { output: Seq::empty(), sequences: Seq::empty(), held }, data)
    } else {
        let h = held.push(data[0]);
        let rest = data.skip(1);
        if held.len() < 7 {
            if begins(osc_start(), h) {
                absorb(h, rest)
            } else {
                (Filtered { output: held, sequences: Seq::empty(), held: Seq::empty() }, data)
            }
        } else if ends_sequence(h) {
            (Filtered { output: Seq::empty(), sequences: seq![h], held: Seq::empty() }, rest)
        } else if h.len() > MAX_HELD {
            (Filtered { output: h, sequences: Seq::empty(), held: Seq::empty() }, rest)
        } else {
            absorb(h, rest)
        }
    }
}

/// Whether the last bytes are a terminator.
pub open spec fn ends_sequence(h: Seq<u8>) -> bool {
    h.len() > 0 && (h.last() == 0x07 || (h.len() >= 2 && h[h.len() - 2] == 0x1b && h.last()
        == 0x5c))
}

/// What the filter makes of a frame, with `held` held back from before.
pub open spec fn filtered(held: Seq<u8>, data: Seq<u8>) -> Filtered {
    if held.len() == 0 {
        scan(data)
    } else {
        let (a, rest) = absorb(held, data);
        if a.held.len() > 0 {
            a
        } else {
            joined(a, scan(rest))
        }
    }
}

/// The views of byte strings.
pub open spec fn byte_views(v: Seq<Vec<u8>>) -> Seq<Seq<u8>> {
    Seq::new(v.len(), |i: int| v[i]@)
}

/// The byte of the beginning of a sequence at `i`.
fn start_byte(i: usize) -> (b: u8)
    requires
        i < 7,
    ensures
        b == osc_start()[i as int],
{
    if i == 0 {
        0x1b
    } else if i == 1 {
        0x5d
    } else if i < 6 {
        0x39
    } else {
        0x3b
    }
}

/// How many of the bytes from `at` on agree with the beginning of a sequence.
fn agreement(data: &[u8], at: usize) -> (n: usize)
    requires
        at <= data@.len(),
    ensures
        n <= 7,
        n <= data@.len() - at,
        begins(osc_start(), data@.subrange(at as int, at + n)),
        n < 7 && n < data@.len() - at ==> data@[at + n] != osc_start()[n as int],
{
    let mut n: usize = 0;
    assert(osc_start().take(0) =~= data@.subrange(at as int, at as int));
    while n < 7 && n < data.len() - at && data[at + n] == start_byte(n)
        invariant
            at <= data@.len(),
            n <= 7,
            n <= data@.len() - at,
            begins(osc_start(), data@.subrange(at as int, at + n)),
        decreases 7 - n,
    {
        proof {
            assert(data@.subrange(at as int, at + n + 1) =~= data@.subrange(
                at as int,
                at + n,
            ).push(data@[at + n]));
            assert(osc_start().take(n + 1) =~= osc_start().take(n as int).push(
                osc_start()[n as int],
            ));
        }
        n += 1;
    }
    n
}

proof fn lemma_agreement(s: Seq<u8>, n: int)
    requires
        0 <= n <= 7,
        n <= s.len(),
        begins(osc_start(), s.take(n)),
        n < 7 && n < s.len() ==> s[n] != osc_start()[n],
    ensures
        begins(s, osc_start()) == (n == 7),
        begins(osc_start(), s) == (n == s.len()),
{
    if n == 7 {
        assert(s.take(7) =~= osc_start().take(7));
        assert(osc_start().take(7) =~= osc_start());
        if s.len() == 7 {
            assert(s =~= s.take(7));
        }
    } else if n < s.len() {
        if s.len() >= 7 {
            assert(s.take(7)[n] == s[n]);
        } else {
            assert(osc_start().take(s.len() as int)[n] == osc_start()[n]);
        }
    } else {
        assert(s.take(n) =~= s);
    }
}

/// The filter of a console: what it holds back between frames.
#[derive(Debug)]
pub struct BridgeFilter {
    held: Vec<u8>,
}

impl View for BridgeFilter {
    type V = Seq<u8>;

    closed spec fn view(&self) -> Seq<u8> {
        self.held@
    }
}

proof fn lemma_terminator(data: Seq<u8>, i: int)
    requires
        0 <= i,
    ensures
        terminator_end(data, i) matches Some(e) ==> i < e <= data.len(),
    decreases data.len() - i,
{
    if i < data.len() && data[i] != 0x07 && !(data[i] == 0x1b && i + 1 < data.len() && data[i + 1]
        == 0x5c) {
        lemma_terminator(data, i + 1);
    }
}

impl BridgeFilter {
    pub fn new() -> (r: Self)
        ensures
            r@ == Seq::<u8>::empty(),
    {
        BridgeFilter { held: Vec::new() }
    }

    /// Take in a frame: the output without the sequences, and the sequences.
    pub fn filter(&mut self, data: &[u8]) -> (r: (Vec<u8>, Vec<Vec<u8>>))
        ensures
            filtered(old(self)@, data@) == (Filtered {
                output: r.0@,
                sequences: byte_views(r.1@),
                held: final(self)@,
            }),
    {
        let mut output: Vec<u8> = Vec::new();
        let mut sequences: Vec<Vec<u8>> = Vec::new();
        let ghost goal = filtered(self@, data@);
        let mut i: usize = 0;
        proof {
            assert(data@.skip(0) =~= data@);
            assert(byte_views(sequences@) =~= Seq::<Seq<u8>>::empty());
        }
        if self.held.len() > 0 {
            i = self.take_up(data, &mut output, &mut sequences);
            let ghost (a, rest) = absorb(old(self)@, data@);
            if self.held.len() > 0 {
                return (output, sequences);
            }
            assert(goal == joined(
                Filtered {
                    output: output@,
                    sequences: byte_views(sequences@),
                    held: Seq::empty(),
                },
                scan(data@.skip(i as int)),
            ));
        } else {
            proof {
                let first = Filtered {
                    output: output@,
                    sequences: byte_views(sequences@),
                    held: Seq::empty(),
                };
                let s = scan(data@);
                assert(joined(first, s).output =~= s.output);
                assert(joined(first, s).sequences =~= s.sequences);
            }
        }
        while i < data.len()
            invariant
                i <= data@.len(),
                self.held@.len() == 0,
                goal == filtered(old(self)@, data@),
                goal == joined(
                    Filtered {
                        output: output@,
                        sequences: byte_views(sequences@),
                        held: Seq::empty(),
                    },
                    scan(data@.skip(i as int)),
                ),
            decreases data@.len() - i,
        {
            let ghost s = data@.skip(i as int);
            let ghost out0 = output@;
            let ghost seqs0 = byte_views(sequences@);
            let n: usize = agreement(data, i);
            proof {
                assert(data@.subrange(i as int, i + n) =~= s.take(n as int));
                if n < s.len() {
                    assert(s[n as int] == data@[i + n]);
                }
                lemma_agreement(s, n as int);
                assert(self.held@ =~= Seq::empty());
            }
            if n == 7 {
                match find_terminator(data, i + 7) {
                    Some(e) => {
                        proof {
                            lemma_terminator_skip(data@, i as int, 7);
                            lemma_terminator(s, 7);
                            assert(data@.subrange(i as int, e as int) =~= s.take(e - i));
                            assert(s.skip(e - i) =~= data@.skip(e as int));
                        }
                        sequences.push(copy_range(data, i, e));
                        proof {
                            let x = s.take(e - i);
                            assert(byte_views(sequences@) =~= seqs0.push(x));
                            let t = scan(data@.skip(e as int));
                            assert(out0 + (Seq::<u8>::empty() + t.output) =~= out0 + t.output);
                            assert(seqs0 + (seq![x] + t.sequences) =~= seqs0.push(x)
                                + t.sequences);
                        }
                        i = e;
                    },
                    None => {
                        proof {
                            lemma_terminator_skip(data@, i as int, 7);
                        }
                        self.held = copy_range(data, i, data.len());
                        proof {
                            assert(data@.subrange(i as int, data@.len() as int) =~= s);
                            assert(out0 + Seq::<u8>::empty() =~= out0);
                            assert(seqs0 + Seq::<Seq<u8>>::empty() =~= seqs0);
                            assert(self@ == s);
                            assert(goal.output == out0);
                            assert(goal.sequences == seqs0);
                            assert(goal.held == s);
                        }
                        return (output, sequences);
                    },
                }
            } else if n == data.len() - i {
                self.held = copy_range(data, i, data.len());
                proof {
                    assert(data@.subrange(i as int, data@.len() as int) =~= s);
                    assert(out0 + Seq::<u8>::empty() =~= out0);
                    assert(seqs0 + Seq::<Seq<u8>>::empty() =~= seqs0);
                    assert(self@ == s);
                    assert(goal.output == out0);
                    assert(goal.sequences == seqs0);
                    assert(goal.held == s);
                }
                return (output, sequences);
            } else {
                output.push(data[i]);
                proof {
                    assert(s.skip(1) =~= data@.skip(i + 1));
                    let t = scan(s.skip(1));
                    assert(out0 + (seq![s[0]] + t.output) =~= out0.push(s[0]) + t.output);
                    assert(seqs0 + (Seq::<Seq<u8>>::empty() + t.sequences) =~= seqs0
                        + t.sequences);
                }
                i += 1;
            }
        }
        proof {
            assert(data@.skip(i as int) =~= Seq::empty());
            assert(output@ + Seq::<u8>::empty() =~= output@);
            assert(byte_views(sequences@) + Seq::<Seq<u8>>::empty() =~= byte_views(sequences@));
            assert(self.held@ =~= Seq::empty());
        }
        (output, sequences)
    }

    /// Go on with what is held back; gives how many bytes were taken.
    fn take_up(
        &mut self,
        data: &[u8],
        output: &mut Vec<u8>,
        sequences: &mut Vec<Vec<u8>>,
    ) -> (i: usize)
        requires
            old(self).held@.len() > 0,
            old(output)@.len() == 0,
            old(sequences)@.len() == 0,
        ensures
            i <= data@.len(),
            absorb(old(self)@, data@) == (
                Filtered {
                    output: final(output)@,
                    sequences: byte_views(final(sequences)@),
                    held: final(self)@,
                },
                data@.skip(i as int),
            ),
    {
        let ghost goal = absorb(self@, data@);
        let mut i: usize = 0;
        proof {
            assert(data@.skip(0) =~= data@);
            assert(output@ =~= Seq::empty());
            assert(byte_views(sequences@) =~= Seq::empty());
        }
        while i < data.len()
            invariant
                i <= data@.len(),
                goal == absorb(old(self)@, data@),
                goal == absorb(self@, data@.skip(i as int)),
                self.held@.len() > 0,
                output@ == Seq::<u8>::empty(),
                sequences@.len() == 0,
                byte_views(sequences@) == Seq::<Seq<u8>>::empty(),
            decreases data@.len() - i,
        {
            let b: u8 = data[i];
            let short: bool = self.held.len() < 7;
            let ghost before = self@;
            proof {
                assert(data@.skip(i as int).skip(1) =~= data@.skip(i + 1));
                assert(data@.skip(i as int)[0] == b);
            }
            self.held.push(b);
            let len: usize = self.held.len();
            if short {
                let n: usize = agreement(&self.held, 0);
                proof {
                    let h = self.held@;
                    assert(h.subrange(0, n as int) =~= h.take(n as int));
                    lemma_agreement(h, n as int);
                }
                if n != len {
                    self.held.pop();
                    assert(self.held@ =~= before);
                    std::mem::swap(output, &mut self.held);
                    proof {
                        assert(self.held@ =~= Seq::<u8>::empty());
                        assert(byte_views(sequences@) =~= Seq::<Seq<u8>>::empty());
                    }
                    return i;
                }
            } else {
                if b == 0x07 || (self.held[len - 2] == 0x1b && self.held[len - 1] == 0x5c) {
                    let mut done: Vec<u8> = Vec::new();
                    std::mem::swap(&mut done, &mut self.held);
                    sequences.push(done);
                    proof {
                        assert(self.held@ =~= Seq::<u8>::empty());
                        assert(byte_views(sequences@) =~= seq![before.push(b)]);
                    }
                    return i + 1;
                }
                if len > MAX_HELD {
                    std::mem::swap(output, &mut self.held);
                    proof {
                        assert(self.held@ =~= Seq::<u8>::empty());
                        assert(output@ == before.push(b));
                        assert(byte_views(sequences@) =~= Seq::<Seq<u8>>::empty());
                    }
                    return i + 1;
                }
            }
            i += 1;
        }
        assert(data@.skip(i as int) =~= Seq::empty());
        i
    }
}

/// Where the first terminator at or after `from` ends.
fn find_terminator(data: &[u8], from: usize) -> (r: Option<usize>)
    requires
        from <= data@.len(),
    ensures
        r is Some <==> terminator_end(data@, from as int) is Some,
        r matches Some(e) ==> from < e <= data@.len() && terminator_end(data@, from as int)
            == Some(e as int),
{
    let mut i: usize = from;
    while i < data.len()
        invariant
            from <= i <= data@.len(),
            terminator_end(data@, from as int) == terminator_end(data@, i as int),
        decreases data@.len() - i,
    {
        if data[i] == 0x07 {
            return Some(i + 1);
        }
        if data[i] == 0x1b && data.len() - i > 1 && data[i + 1] == 0x5c {
            return Some(i + 2);
        }
        i += 1;
    }
    None
}

proof fn lemma_terminator_skip(data: Seq<u8>, at: int, i: int)
    requires
        0 <= at <= data.len(),
        0 <= i,
    ensures
        terminator_end(data.skip(at), i) == (match terminator_end(data, at + i) {
            Some(e) => Some(e - at),
            None => None,
        }),
    decreases data.len() - at - i,
{
    let s = data.skip(at);
    if i < s.len() {
        assert(s[i] == data[at + i]);
        if i + 1 < s.len() {
            assert(s[i + 1] == data[at + i + 1]);
        }
        lemma_terminator_skip(data, at, i + 1);
    }
}

/// Whether bytes can be held back: a beginning of a sequence, or one that has
/// begun and not ended.
pub open spec fn pending(h: Seq<u8>) -> bool {
    ||| (0 < h.len() < 7 && begins(osc_start(), h))
    ||| (begins(h, osc_start()) && terminator_end(h, 7) is None)
}

proof fn lemma_terminator_more(a: Seq<u8>, b: Seq<u8>, i: int)
    requires
        0 <= i,
        terminator_end(a, i) is Some,
    ensures
        terminator_end(a + b, i) == terminator_end(a, i),
    decreases a.len() - i,
{
    let s = a + b;
    assert(s[i] == a[i]);
    if i + 1 < a.len() {
        assert(s[i + 1] == a[i + 1]);
    }
    if a[i] != 0x07 && !(a[i] == 0x1b && i + 1 < a.len() && a[i + 1] == 0x5c) {
        lemma_terminator_more(a, b, i + 1);
        lemma_terminator(a, i + 1);
    }
}

/// One byte more ends a sequence, or does not.
proof fn lemma_terminator_push(h: Seq<u8>, x: u8, i: int)
    requires
        0 <= i <= h.len(),
        terminator_end(h, i) is None,
    ensures
        terminator_end(h.push(x), i) == (if x == 0x07 || (x == 0x5c && h.len() > i && h.last()
            == 0x1b) {
            Some(h.len() as int + 1)
        } else {
            None
        }),
    decreases h.len() - i,
{
    let s = h.push(x);
    if i < h.len() {
        assert(s[i] == h[i]);
        if i + 1 < h.len() {
            assert(s[i + 1] == h[i + 1]);
            lemma_terminator_push(h, x, i + 1);
        } else {
            assert(s[i + 1] == x);
            assert(terminator_end(s, i + 2) is None);
            assert(h.last() == h[i]);
        }
    } else {
        assert(s[i] == x);
        assert(terminator_end(s, i + 1) is None);
    }
}

proof fn lemma_no_start(s: Seq<u8>)
    requires
        s.len() > 0,
        s[0] != 0x1b,
    ensures
        !begins(s, osc_start()),
        !begins(osc_start(), s),
{
    if s.len() >= 7 {
        assert(s.take(7)[0] == s[0]);
    }
    if s.len() <= 7 {
        assert(osc_start().take(s.len() as int)[0] == 0x1b);
    }
}

/// Bytes without an escape are passed on as they are.
proof fn lemma_plain(t: Seq<u8>, rest: Seq<u8>)
    requires
        forall|i: int| 0 <= i < t.len() ==> #[trigger] t[i] != 0x1b,
    ensures
        scan(t + rest) == joined(
            Filtered { output: t, sequences: Seq::empty(), held: Seq::empty() },
            scan(rest),
        ),
    decreases t.len(),
{
    let r = scan(rest);
    if t.len() == 0 {
        assert(t + rest =~= rest);
        assert(t + r.output =~= r.output);
        assert(Seq::<Seq<u8>>::empty() + r.sequences =~= r.sequences);
    } else {
        let s = t + rest;
        assert(s[0] == t[0]);
        lemma_no_start(s);
        let u = t.skip(1);
        assert forall|i: int| 0 <= i < u.len() implies #[trigger] u[i] != 0x1b by {
            assert(u[i] == t[i + 1]);
        }
        lemma_plain(u, rest);
        assert(s.skip(1) =~= u + rest);
        assert(seq![t[0]] + (u + r.output) =~= t + r.output);
        assert(Seq::<Seq<u8>>::empty() + (Seq::<Seq<u8>>::empty() + r.sequences) =~= Seq::<
            Seq<u8>,
        >::empty() + r.sequences);
    }
}

/// A beginning that turns out to be something else is passed on, and what broke
/// it is looked at anew.
proof fn lemma_broken(p: Seq<u8>, data: Seq<u8>)
    requires
        0 < p.len() < 7,
        begins(osc_start(), p),
        data.len() > 0,
        !begins(osc_start(), p.push(data[0])),
    ensures
        scan(p + data) == joined(
            Filtered { output: p, sequences: Seq::empty(), held: Seq::empty() },
            scan(data),
        ),
{
    let x = data[0];
    let s = p + data;
    let n = p.len() as int;
    assert(p =~= osc_start().take(n));
    assert(osc_start()[n] != x) by {
        if osc_start()[n] == x {
            assert(osc_start().take(n + 1) =~= p.push(x));
        }
    }
    assert(s[n] == x);
    assert(s[0] == p[0]);
    if s.len() >= 7 {
        assert(s.take(7)[n] == x);
    }
    if s.len() <= 7 {
        assert(osc_start().take(s.len() as int)[n] == osc_start()[n]);
    }
    let t = p.skip(1);
    assert forall|i: int| 0 <= i < t.len() implies #[trigger] t[i] != 0x1b by {
        assert(t[i] == p[i + 1]);
        assert(p[i + 1] == osc_start()[i + 1]);
    }
    lemma_plain(t, data);
    assert(s.skip(1) =~= t + data);
    let r = scan(data);
    assert(seq![s[0]] + (t + r.output) =~= p + r.output);
    assert(Seq::<Seq<u8>>::empty() + (Seq::<Seq<u8>>::empty() + r.sequences) =~= Seq::<
        Seq<u8>,
    >::empty() + r.sequences);
}

/// Whether what is held back stays within the limit when `b` arrives: all of it
/// fits, or no sequence goes on, or the one that goes on ends soon enough.
pub open spec fn fits(h: Seq<u8>, b: Seq<u8>) -> bool {
    ||| h.len() + b.len() <= MAX_HELD
    ||| !begins(h + b, osc_start())
    ||| (terminator_end(h + b, 7) matches Some(e) && e <= MAX_HELD + 1)
}

/// Where there is no terminator in the first bytes, it comes after them.
proof fn lemma_terminator_late(a: Seq<u8>, b: Seq<u8>, i: int)
    requires
        0 <= i,
        terminator_end(a, i) is None,
    ensures
        terminator_end(a + b, i) matches Some(e) ==> e > a.len(),
    decreases a.len() - i,
{
    let s = a + b;
    if i < a.len() {
        assert(s[i] == a[i]);
        if i + 1 < a.len() {
            assert(s[i + 1] == a[i + 1]);
        }
        lemma_terminator_late(a, b, i + 1);
    } else {
        lemma_terminator(s, i);
    }
}

proof fn lemma_resume(h: Seq<u8>, data: Seq<u8>)
    requires
        pending(h),
        fits(h, data),
    ensures
        filtered(h, data) == scan(h + data),
    decreases data.len(),
{
    if data.len() == 0 {
        assert(h + data =~= h);
        lemma_pending_scan(h);
    } else {
        let x = data[0];
        let g = h.push(x);
        let rest = data.skip(1);
        assert(h + data =~= g + rest);
        if h.len() < 7 {
            if begins(osc_start(), g) {
                if g.len() == 7 {
                    assert(osc_start().take(7) =~= osc_start());
                    assert(g.take(7) =~= g);
                }
                lemma_resume(g, rest);
            } else {
                lemma_broken(h, data);
            }
        } else {
            lemma_terminator_push(h, x, 7);
            assert(h.take(7) =~= osc_start());
            if h.len() == 7 {
                assert(h[6] == h.take(7)[6]);
            }
            assert(g.take(7) =~= h.take(7));
            assert((g + rest).take(7) =~= g.take(7));
            if ends_sequence(g) {
                lemma_terminator_more(g, rest, 7);
                assert((g + rest).take(g.len() as int) =~= g);
                assert((g + rest).skip(g.len() as int) =~= rest);
            } else {
                lemma_terminator_late(g, rest, 7);
                lemma_resume(g, rest);
            }
        }
    }
}

proof fn lemma_pending_scan(h: Seq<u8>)
    requires
        pending(h),
    ensures
        scan(h) == (Filtered { output: Seq::empty(), sequences: Seq::empty(), held: h }),
{
    if h.len() < 7 {
    }
}

/// What is held back can be held back.
proof fn lemma_scan_held(data: Seq<u8>)
    ensures
        scan(data).held.len() == 0 || pending(scan(data).held),
    decreases data.len(),
{
    if data.len() > 0 {
        if begins(data, osc_start()) {
            if let Some(e) = terminator_end(data, 7) {
                if 0 < e <= data.len() {
                    lemma_scan_held(data.skip(e));
                }
            }
        } else if begins(osc_start(), data) {
            if data.len() == 7 {
                assert(osc_start().take(7) =~= osc_start());
                assert(data.take(7) =~= data);
            }
        } else {
            lemma_scan_held(data.skip(1));
        }
    }
}

proof fn lemma_scan_split(a: Seq<u8>, b: Seq<u8>)
    ensures
        scan(a + b) == joined(scan(a), scan(scan(a).held + b)),
    decreases a.len(),
{
    let whole = scan(a + b);
    if a.len() == 0 {
        assert(a + b =~= b);
        assert(scan(a).held + b =~= b);
        assert(joined(nothing(), whole).output =~= whole.output);
        assert(joined(nothing(), whole).sequences =~= whole.sequences);
    } else if begins(a, osc_start()) {
        assert((a + b).take(7) =~= a.take(7));
        match terminator_end(a, 7) {
            Some(e) => {
                lemma_terminator(a, 7);
                lemma_terminator_more(a, b, 7);
                assert((a + b).take(e) =~= a.take(e));
                assert((a + b).skip(e) =~= a.skip(e) + b);
                lemma_scan_split(a.skip(e), b);
                let m = scan(a.skip(e));
                let r = scan(m.held + b);
                let one = seq![a.take(e)];
                assert(Seq::<u8>::empty() + (m.output + r.output) =~= Seq::<u8>::empty() + m.output
                    + r.output);
                assert(one + (m.sequences + r.sequences) =~= one + m.sequences + r.sequences);
            },
            None => {
                assert(joined(scan(a), whole).output =~= whole.output);
                assert(joined(scan(a), whole).sequences =~= whole.sequences);
            },
        }
    } else if begins(osc_start(), a) {
        assert(joined(scan(a), whole).output =~= whole.output);
        assert(joined(scan(a), whole).sequences =~= whole.sequences);
    } else {
        let s = a + b;
        lemma_mismatch_more(a, b);
        assert(s[0] == a[0]);
        assert(s.skip(1) =~= a.skip(1) + b);
        lemma_scan_split(a.skip(1), b);
        let m = scan(a.skip(1));
        let r = scan(m.held + b);
        assert(seq![a[0]] + (m.output + r.output) =~= seq![a[0]] + m.output + r.output);
        assert(Seq::<Seq<u8>>::empty() + (m.sequences + r.sequences) =~= Seq::<Seq<u8>>::empty()
            + m.sequences + r.sequences);
    }
}

proof fn lemma_mismatch_more(a: Seq<u8>, b: Seq<u8>)
    requires
        a.len() > 0,
        !begins(a, osc_start()),
        !begins(osc_start(), a),
    ensures
        !begins(a + b, osc_start()),
        !begins(osc_start(), a + b),
{
    let s = a + b;
    if begins(s, osc_start()) {
        if a.len() >= 7 {
            assert(a.take(7) =~= s.take(7));
        } else {
            assert(osc_start().take(a.len() as int) =~= a) by {
                assert forall|i: int| 0 <= i < a.len() implies a[i] == osc_start()[i] by {
                    assert(s.take(7)[i] == s[i]);
                }
            }
        }
    }
    if begins(osc_start(), s) {
        assert(osc_start().take(a.len() as int) =~= a) by {
            assert forall|i: int| 0 <= i < a.len() implies a[i] == osc_start()[i] by {
                assert(osc_start().take(s.len() as int)[i] == s[i]);
            }
        }
    }
}

/// Where a stream is cut into frames does not matter: filtering one frame and
/// then the next gives what filtering both together gives, whatever was held
/// back before. This holds unless more of a sequence is held back than the
/// limit.
pub proof fn law_split_invisible(held: Seq<u8>, a: Seq<u8>, b: Seq<u8>)
    requires
        held.len() == 0 || pending(held),
        fits(held, a),
        fits(filtered(held, a).held, b),
    ensures
        joined(filtered(held, a), filtered(filtered(held, a).held, b)) == filtered(held, a + b),
        filtered(held, a).held.len() == 0 || pending(filtered(held, a).held),
{
    let h = held + a;
    if held.len() > 0 {
        lemma_resume(held, a);
    } else {
        assert(h =~= a);
    }
    assert(filtered(held, a) == scan(h));
    lemma_scan_split(h, b);
    lemma_scan_held(h);
    if scan(h).held.len() > 0 {
        lemma_resume(scan(h).held, b);
    } else {
        assert(scan(h).held + b =~= b);
    }
    assert(held + (a + b) =~= h + b);
    if held.len() > 0 {
        lemma_fits_on(held, a, b);
        lemma_resume(held, a + b);
    } else {
        assert(a + b =~= h + b);
    }
}

/// What fits frame by frame fits as a whole.
proof fn lemma_fits_on(held: Seq<u8>, a: Seq<u8>, b: Seq<u8>)
    requires
        fits(held, a),
        fits(scan(held + a).held, b),
    ensures
        fits(held, a + b),
{
    let h = held + a;
    let s = h + b;
    assert(held + (a + b) =~= s);
    if begins(s, osc_start()) {
        if h.len() >= 7 {
            assert(h.take(7) =~= s.take(7));
            if terminator_end(h, 7) is Some {
                lemma_terminator(h, 7);
                lemma_terminator_more(h, b, 7);
            } else {
                assert(scan(h).held == h);
            }
        } else {
            assert(osc_start().take(h.len() as int) =~= h) by {
                assert forall|i: int| 0 <= i < h.len() implies h[i] == osc_start()[i] by {
                    assert(s.take(7)[i] == s[i]);
                }
            }
            if h.len() == 0 {
                assert(scan(h).held =~= h);
            }
            assert(scan(h).held == h);
        }
    }
}

/// Output without an escape passes untouched.
pub proof fn law_plain_output_untouched(data: Seq<u8>)
    requires
        forall|i: int| 0 <= i < data.len() ==> #[trigger] data[i] != 0x1b,
    ensures
        filtered(Seq::empty(), data) == (Filtered {
            output: data,
            sequences: Seq::empty(),
            held: Seq::empty(),
        }),
{
    lemma_plain(data, Seq::empty());
    assert(data + Seq::<u8>::empty() =~= data);
    assert(Seq::<Seq<u8>>::empty() + Seq::<Seq<u8>>::empty() =~= Seq::<Seq<u8>>::empty());
}

/// A whole sequence is taken out and handed on, also after a beginning of
/// another one that was held back and is broken off by it.
pub proof fn law_sequence_taken_out(held: Seq<u8>, sequence: Seq<u8>, after: Seq<u8>)
    requires
        held.len() < 7,
        begins(osc_start(), held),
        begins(sequence, osc_start()),
        terminator_end(sequence, 7) == Some(sequence.len() as int),
    ensures
        filtered(held, sequence + after) == joined(
            Filtered { output: held, sequences: seq![sequence], held: Seq::empty() },
            scan(after),
        ),
{
    let s = sequence + after;
    let r = scan(after);
    lemma_terminator_more(sequence, after, 7);
    assert(s.take(7) =~= sequence.take(7));
    assert(s.take(sequence.len() as int) =~= sequence);
    assert(s.skip(sequence.len() as int) =~= after);
    assert(s[0] == sequence.take(7)[0]);
    if held.len() > 0 {
        let h = held.push(s[0]);
        assert(!begins(osc_start(), h)) by {
            assert(osc_start().take(h.len() as int)[h.len() - 1] != h[h.len() - 1]);
        }
        assert(held + (Seq::<u8>::empty() + r.output) =~= held + r.output);
        assert(Seq::<Seq<u8>>::empty() + (seq![sequence] + r.sequences) =~= seq![sequence]
            + r.sequences);
    } else {
        assert(held =~= Seq::<u8>::empty());
    }
}

/// A whole sequence is taken out of the bytes around it, whatever they are, as
/// long as it does not stand inside another sequence that has begun.
pub proof fn law_sequence_never_shown(before: Seq<u8>, sequence: Seq<u8>, after: Seq<u8>)
    requires
        scan(before).held.len() < 7,
        begins(sequence, osc_start()),
        terminator_end(sequence, 7) == Some(sequence.len() as int),
    ensures
        ({
            let b = scan(before);
            let a = scan(after);
            scan(before + sequence + after) == (Filtered {
                output: b.output + b.held + a.output,
                sequences: b.sequences + seq![sequence] + a.sequences,
                held: a.held,
            })
        }),
{
    let s = sequence + after;
    let b = scan(before);
    let a = scan(after);
    lemma_scan_held(before);
    assert(begins(osc_start(), b.held)) by {
        assert(osc_start().take(0) =~= b.held || b.held.len() > 0);
    }
    assert(before + sequence + after =~= before + s);
    law_sequence_taken_out(b.held, sequence, after);
    lemma_scan_split(before, s);
    if b.held.len() > 0 {
        assert(fits(b.held, s)) by {
            let t = b.held + s;
            assert(s[0] == sequence.take(7)[0]);
            assert(t.take(7)[b.held.len() as int] != osc_start()[b.held.len() as int]);
        }
        lemma_resume(b.held, s);
    } else {
        assert(b.held + s =~= s);
    }
    assert(b.output + (b.held + a.output) =~= b.output + b.held + a.output);
    assert(b.sequences + (seq![sequence] + a.sequences) =~= b.sequences + seq![sequence]
        + a.sequences);
}

/// Where no terminator begins before `e`, and one ends the bytes there, that
/// is the first.
proof fn lemma_terminator_at(data: Seq<u8>, i: int, e: int)
    requires
        0 <= i <= e < data.len(),
        forall|k: int| i <= k < e ==> #[trigger] data[k] != 0x07 && data[k] != 0x1b,
        data[e] == 0x07 || (data[e] == 0x1b && e + 1 < data.len() && data[e + 1] == 0x5c),
    ensures
        terminator_end(data, i) == Some(if data[e] == 0x07 {
            e + 1
        } else {
            e + 2
        }),
    decreases e - i,
{
    if i < e {
        assert(data[i] != 0x07 && data[i] != 0x1b);
        lemma_terminator_at(data, i + 1, e);
    }
}

/// A sequence in a stream: an escape, `]9999;`, bytes that are neither a bell
/// nor an escape, and either a bell or an escape and a backslash. It is handed
/// on whole, and the output is what stands before and behind it.
pub proof fn law_sequence_between_output(
    before: Seq<u8>,
    body: Seq<u8>,
    bell: bool,
    behind: Seq<u8>,
)
    requires
        forall|i: int| 0 <= i < before.len() ==> #[trigger] before[i] != 0x1b,
        forall|i: int| 0 <= i < behind.len() ==> #[trigger] behind[i] != 0x1b,
        forall|i: int| 0 <= i < body.len() ==> #[trigger] body[i] != 0x1b && body[i] != 0x07,
    ensures
        ({
            let start = seq![0x1bu8, 0x5du8, 0x39u8, 0x39u8, 0x39u8, 0x39u8, 0x3bu8];
            let end = if bell {
                seq![0x07u8]
            } else {
                seq![0x1bu8, 0x5cu8]
            };
            let sequence = start + body + end;
            filtered(Seq::empty(), before + sequence + behind) == (Filtered {
                output: before + behind,
                sequences: seq![sequence],
                held: Seq::empty(),
            })
        }),
{
    let start = seq![0x1bu8, 0x5du8, 0x39u8, 0x39u8, 0x39u8, 0x39u8, 0x3bu8];
    let end = if bell {
        seq![0x07u8]
    } else {
        seq![0x1bu8, 0x5cu8]
    };
    let sequence = start + body + end;
    assert(start =~= osc_start());
    assert(sequence.take(7) =~= osc_start());
    let e = 7 + body.len() as int;
    assert forall|k: int| 7 <= k < e implies #[trigger] sequence[k] != 0x07 && sequence[k]
        != 0x1b by {
        assert(sequence[k] == body[k - 7]);
    }
    assert(sequence[e] == end[0]);
    if !bell {
        assert(sequence[e + 1] == end[1]);
    }
    lemma_terminator_at(sequence, 7, e);
    law_plain_output_untouched(before);
    law_plain_output_untouched(behind);
    law_sequence_never_shown(before, sequence, behind);
    let none = Seq::<Seq<u8>>::empty();
    assert(none + seq![sequence] + none =~= seq![sequence]);
    assert(before + Seq::<u8>::empty() + behind =~= before + behind);
}

/// How many bytes sequences hold.
pub open spec fn bytes_of(sequences: Seq<Seq<u8>>) -> nat
    decreases sequences.len(),
{
    if sequences.len() == 0 {
        0
    } else {
        bytes_of(sequences.drop_last()) + sequences.last().len()
    }
}

proof fn lemma_bytes_sum(a: Seq<Seq<u8>>, b: Seq<Seq<u8>>)
    ensures
        bytes_of(a + b) == bytes_of(a) + bytes_of(b),
    decreases b.len(),
{
    if b.len() == 0 {
        assert(a + b =~= a);
    } else {
        lemma_bytes_sum(a, b.drop_last());
        assert((a + b).drop_last() =~= a + b.drop_last());
        assert((a + b).last() == b.last());
    }
}

proof fn lemma_one_sequence(s: Seq<u8>)
    ensures
        bytes_of(seq![s]) == s.len(),
        bytes_of(Seq::empty()) == 0,
{
    reveal_with_fuel(bytes_of, 2);
    assert(seq![s].drop_last() =~= Seq::empty());
}

proof fn lemma_scan_keeps_bytes(data: Seq<u8>)
    ensures
        ({
            let f = scan(data);
            f.output.len() + bytes_of(f.sequences) + f.held.len() == data.len()
        }),
    decreases data.len(),
{
    lemma_one_sequence(data);
    if data.len() > 0 {
        if begins(data, osc_start()) {
            lemma_terminator(data, 7);
            if let Some(e) = terminator_end(data, 7) {
                lemma_scan_keeps_bytes(data.skip(e));
                lemma_one_sequence(data.take(e));
                lemma_bytes_sum(seq![data.take(e)], scan(data.skip(e)).sequences);
            }
        } else if !begins(osc_start(), data) {
            lemma_scan_keeps_bytes(data.skip(1));
            lemma_bytes_sum(Seq::empty(), scan(data.skip(1)).sequences);
        }
    }
}

proof fn lemma_absorb_keeps_bytes(held: Seq<u8>, data: Seq<u8>)
    ensures
        ({
            let (f, rest) = absorb(held, data);
            f.output.len() + bytes_of(f.sequences) + f.held.len() + rest.len() == held.len()
                + data.len()
        }),
    decreases data.len(),
{
    lemma_one_sequence(held);
    if data.len() > 0 {
        let h = held.push(data[0]);
        lemma_one_sequence(h);
        lemma_absorb_keeps_bytes(h, data.skip(1));
    }
}

/// No byte is lost and none is made up: what is passed on, what is handed on
/// in sequences and what is held back are together as many bytes as were held
/// back before and have arrived.
pub proof fn law_no_byte_lost(held: Seq<u8>, data: Seq<u8>)
    ensures
        ({
            let f = filtered(held, data);
            f.output.len() + bytes_of(f.sequences) + f.held.len() == held.len() + data.len()
        }),
{
    if held.len() == 0 {
        lemma_scan_keeps_bytes(data);
    } else {
        lemma_absorb_keeps_bytes(held, data);
        let (a, rest) = absorb(held, data);
        lemma_scan_keeps_bytes(rest);
        lemma_bytes_sum(a.sequences, scan(rest).sequences);
        lemma_absorb_rest(held, data);
    }
}

proof fn lemma_absorb_rest(held: Seq<u8>, data: Seq<u8>)
    requires
        held.len() > 0,
    ensures
        absorb(held, data).0.held.len() > 0 ==> absorb(held, data).1.len() == 0,
    decreases data.len(),
{
    if data.len() > 0 {
        lemma_absorb_rest(held.push(data[0]), data.skip(1));
    }
}

/// A sequence that does not end is given up once more than 8192 bytes of it
/// would be held back: all of it is passed on.
pub proof fn law_endless_sequence_given_up(held: Seq<u8>, byte: u8)
    requires
        held.len() == 8192,
        byte != 0x07,
        byte != 0x5c,
    ensures
        filtered(held, seq![byte]) == (Filtered {
            output: held.push(byte),
            sequences: Seq::empty(),
            held: Seq::empty(),
        }),
        held.len() == 8192 ==> forall|h: Seq<u8>|
            7 <= h.len() < 8192 ==> (#[trigger] filtered(h, seq![byte])).held == h.push(byte),
{
    let data = seq![byte];
    assert(data.skip(1) =~= Seq::empty());
    assert(scan(Seq::<u8>::empty()) == nothing());
    let f = filtered(held, data);
    assert(f.output =~= held.push(byte));
    assert(f.sequences =~= Seq::empty());
    assert forall|h: Seq<u8>| 7 <= h.len() < 8192 implies (#[trigger] filtered(
        h,
        seq![byte],
    )).held == h.push(byte) by {
        reveal_with_fuel(absorb, 2);
    }
}

} // verus!
