//! tr - translate or delete characters
use vstd::prelude::*;
use vstd::utf8::encode_utf8;
use crate::args::{arg_tokens, has_short, lex_args, values, values_from, Tok};
use crate::commands::{Said, Start};
use crate::lines::{filtered, lemma_filtered_append};
use crate::text::strs;

verus! {

/// The byte that a letter behind a backslash means.
pub open spec fn escaped(b: u8) -> u8 {
    if b == 110 {
        10
    } else if b == 116 {
        9
    } else if b == 114 {
        13
    } else if b == 48 {
        0
    } else if b == 97 {
        7
    } else if b == 98 {
        8
    } else if b == 102 {
        12
    } else if b == 118 {
        11
    } else {
        b
    }
}

/// The bytes from one to another, both included, up or down.
pub open spec fn span(a: u8, b: u8) -> Seq<u8> {
    if a <= b {
        Seq::new((b - a + 1) as nat, |i: int| (a + i) as u8)
    } else {
        Seq::new((a - b + 1) as nat, |i: int| (a - i) as u8)
    }
}

/// The bytes that a set means from position `i` on.
pub open spec fn set_from(s: Seq<u8>, i: int) -> Seq<u8>
    decreases s.len() - i,
{
    if i < 0 || i >= s.len() {
        Seq::empty()
    } else if s[i] == 92u8 && i + 1 < s.len() {
        seq![escaped(s[i + 1])] + set_from(s, i + 2)
    } else if i + 2 < s.len() && s[i + 1] == 45u8 {
        span(s[i], s[i + 2]) + set_from(s, i + 3)
    } else {
        seq![s[i]] + set_from(s, i + 1)
    }
}

fn escape_byte(b: u8) -> (r: u8)
    ensures
        r == escaped(b),
{
    if b == 110 {
        10
    } else if b == 116 {
        9
    } else if b == 114 {
        13
    } else if b == 48 {
        0
    } else if b == 97 {
        7
    } else if b == 98 {
        8
    } else if b == 102 {
        12
    } else if b == 118 {
        11
    } else {
        b
    }
}

fn push_span(out: &mut Vec<u8>, a: u8, b: u8)
    ensures
        final(out)@ == old(out)@ + span(a, b),
{
    let ghost start = out@;
    let up = a <= b;
    let n: u8 = if up {
        b - a
    } else {
        a - b
    };
    let mut i: u8 = 0;
    loop
        invariant
            up == (a <= b),
            n == (if up {
                b - a
            } else {
                a - b
            }),
            i <= n,
            start == old(out)@,
            out@ == start + span(a, b).take(i as int),
        decreases n - i,
    {
        let c = if up {
            a + i
        } else {
            a - i
        };
        out.push(c);
        proof {
            assert(out@ =~= start + span(a, b).take(i + 1));
        }
        if i == n {
            proof {
                assert(span(a, b).take(i + 1) =~= span(a, b));
            }
            return ;
        }
        i += 1;
    }
}

/// Expands a set: plain characters, ranges such as `a-z`, and escapes such as `\n`.
pub fn expand_set(s: &str) -> (r: Vec<u8>)
    ensures
        r@ == set_from(encode_utf8(s@), 0),
{
    let bytes = s.as_bytes();
    let ghost all = bytes@;
    let n = bytes.len();
    let mut out: Vec<u8> = Vec::new();
    let mut i: usize = 0;
    proof {
        assert(out@ + set_from(all, 0) =~= set_from(all, 0));
    }
    while i < n
        invariant
            all == bytes@,
            n == bytes.len(),
            n == all.len(),
            i <= n,
            out@ + set_from(all, i as int) == set_from(all, 0),
        decreases n - i,
    {
        let ghost before = out@;
        let ghost at = i as int;
        if bytes[i] == 92u8 && n - i > 1 {
            out.push(escape_byte(bytes[i + 1]));
            i += 2;
        } else if n - i > 2 && bytes[i + 1] == 45u8 {
            push_span(&mut out, bytes[i], bytes[i + 2]);
            i += 3;
        } else {
            out.push(bytes[i]);
            i += 1;
        }
        proof {
            assert(out@ + set_from(all, i as int) =~= before + set_from(all, at));
        }
    }
    proof {
        assert(out@ =~= set_from(all, 0));
    }
    out
}

/// The bytes outside a set, in order.
pub open spec fn others_from(set: Seq<u8>, b: int) -> Seq<u8>
    decreases 256 - b,
{
    if b < 0 || b >= 256 {
        Seq::empty()
    } else if set.contains(b as u8) {
        others_from(set, b + 1)
    } else {
        seq![b as u8] + others_from(set, b + 1)
    }
}

/// What a byte becomes by the first `n` places of a set: the byte at its last place
/// among them in the second set, whose last byte stands for all places behind its
/// end.
pub open spec fn image(from: Seq<u8>, to: Seq<u8>, b: u8, n: int) -> u8
    decreases n,
{
    if n <= 0 {
        b
    } else if from[n - 1] == b {
        if n - 1 < to.len() {
            to[n - 1]
        } else {
            to.last()
        }
    } else {
        image(from, to, b, n - 1)
    }
}

/// A running tr.
pub struct Tr {
    /// Whether the bytes of the set are deleted.
    pub delete: bool,
    /// Whether a byte that is squeezed is printed once where it repeats.
    pub squeeze: bool,
    /// For each byte, whether it is in the first set.
    pub member: Vec<bool>,
    /// For each byte, whether it is squeezed: the bytes of the second set are, and those
    /// of the first where there is no second.
    pub squeezed: Vec<bool>,
    /// For each byte, what it becomes.
    pub becomes: Vec<u8>,
    /// The byte that was printed last.
    pub last: Option<u8>,
}

impl Tr {
    pub open spec fn wf(self) -> bool {
        self.member@.len() == 256 && self.squeezed@.len() == 256 && self.becomes@.len() == 256
    }

    /// What a byte does: the byte that was printed last, and what is printed.
    pub open spec fn byte_step(self, last: Option<u8>, b: u8) -> (Option<u8>, Seq<u8>) {
        let c = if self.delete {
            b
        } else {
            self.becomes@[b as int]
        };
        if self.delete && self.member@[b as int] {
            (last, Seq::empty())
        } else if self.squeeze && self.squeezed@[c as int] && last == Some(c) {
            (last, Seq::empty())
        } else {
            (Some(c), seq![c])
        }
    }

    pub open spec fn step(self) -> spec_fn(Option<u8>, u8) -> (Option<u8>, Seq<u8>) {
        |last: Option<u8>, b: u8| self.byte_step(last, b)
    }

    /// Takes a chunk of input and gives what is printed.
    pub fn feed(&mut self, chunk: &[u8]) -> (r: Vec<u8>)
        requires
            old(self).wf(),
        ensures
            final(self).wf(),
            final(self).delete == old(self).delete,
            final(self).squeeze == old(self).squeeze,
            final(self).member == old(self).member,
            final(self).squeezed == old(self).squeezed,
            final(self).becomes == old(self).becomes,
            (final(self).last, r@) == filtered(old(self).last, old(self).step(), chunk@, 0),
    {
        let ghost start = *self;
        let ghost f = self.step();
        let ghost whole = filtered(self.last, f, chunk@, 0);
        let mut out: Vec<u8> = Vec::new();
        let mut i: usize = 0;
        proof {
            assert(out@ + whole.1 =~= whole.1);
        }
        while i < chunk.len()
            invariant
                self.wf(),
                self.delete == start.delete,
                self.squeeze == start.squeeze,
                self.member == start.member,
                self.squeezed == start.squeezed,
                self.becomes == start.becomes,
                f == start.step(),
                i <= chunk@.len(),
                filtered(self.last, f, chunk@, i as int).0 == whole.0,
                out@ + filtered(self.last, f, chunk@, i as int).1 == whole.1,
            decreases chunk@.len() - i,
        {
            let ghost before = self.last;
            let ghost now = out@;
            let b = chunk[i];
            let c = if self.delete {
                b
            } else {
                self.becomes[b as usize]
            };
            let same = match self.last {
                Some(l) => l == c,
                None => false,
            };
            if self.delete && self.member[b as usize] {
            } else if self.squeeze && self.squeezed[c as usize] && same {
            } else {
                self.last = Some(c);
                out.push(c);
            }
            proof {
                let (mid, s) = f(before, chunk@[i as int]);
                assert((mid, s) == start.byte_step(before, b));
                assert(out@ =~= now + s);
                let rest = filtered(mid, f, chunk@, i + 1).1;
                assert(now + s + rest =~= now + (s + rest));
            }
            i += 1;
        }
        proof {
            assert(out@ + Seq::<u8>::empty() =~= out@);
        }
        out
    }
}

/// The places that are translated: the set, or with `complement` the bytes outside
/// it in order.
pub open spec fn sources(set: Seq<u8>, complement: bool) -> Seq<u8> {
    if complement {
        others_from(set, 0)
    } else {
        set
    }
}

fn membership(set: &Vec<u8>, complement: bool) -> (r: Vec<bool>)
    ensures
        r@.len() == 256,
        forall|b: int| 0 <= b < 256 ==> #[trigger] r@[b] == (set@.contains(b as u8) != complement),
{
    let mut table: Vec<bool> = Vec::new();
    let mut k: usize = 0;
    while k < 256
        invariant
            k <= 256,
            table@.len() == k,
            forall|b: int| 0 <= b < k ==> #[trigger] table@[b] == complement,
        decreases 256 - k,
    {
        table.push(complement);
        k += 1;
    }
    let mut i: usize = 0;
    proof {
        assert(set@.take(0) =~= Seq::<u8>::empty());
    }
    while i < set.len()
        invariant
            i <= set@.len(),
            table@.len() == 256,
            forall|b: int|
                0 <= b < 256 ==> #[trigger] table@[b] == (set@.take(i as int).contains(b as u8)
                    != complement),
        decreases set@.len() - i,
    {
        let ghost before = table@;
        let c = set[i];
        table.set(c as usize, !complement);
        proof {
            assert(set@.take(i + 1) =~= set@.take(i as int).push(c));
            assert forall|b: int| 0 <= b < 256 implies #[trigger] table@[b] == (set@.take(
                i + 1,
            ).contains(b as u8) != complement) by {
                let p = set@.take(i as int);
                if b as u8 == c {
                    assert(p.push(c)[p.len() as int] == c);
                    assert(p.push(c).contains(c));
                } else {
                    assert(table@[b] == before[b]);
                    if p.contains(b as u8) {
                        let k = choose|k: int| 0 <= k < p.len() && p[k] == b as u8;
                        assert(p.push(c)[k] == b as u8);
                    }
                    if p.push(c).contains(b as u8) {
                        let k = choose|k: int| 0 <= k < p.push(c).len() && p.push(c)[k] == b as u8;
                        assert(p[k] == b as u8);
                    }
                }
            }
        }
        i += 1;
    }
    proof {
        assert(set@.take(i as int) =~= set@);
    }
    table
}

fn outside(set: &Vec<u8>) -> (r: Vec<u8>)
    ensures
        r@ == others_from(set@, 0),
{
    let inside = membership(set, false);
    let mut out: Vec<u8> = Vec::new();
    let mut b: usize = 0;
    proof {
        assert(out@ + others_from(set@, 0) =~= others_from(set@, 0));
    }
    while b < 256
        invariant
            b <= 256,
            inside@.len() == 256,
            forall|c: int| 0 <= c < 256 ==> #[trigger] inside@[c] == set@.contains(c as u8),
            out@ + others_from(set@, b as int) == others_from(set@, 0),
        decreases 256 - b,
    {
        let ghost before = out@;
        if !inside[b] {
            out.push(b as u8);
            proof {
                assert(out@ + others_from(set@, b + 1) =~= before + others_from(set@, b as int));
            }
        }
        b += 1;
    }
    proof {
        assert(out@ =~= others_from(set@, 0));
    }
    out
}

fn translation(from: &Vec<u8>, to: &Vec<u8>) -> (r: Vec<u8>)
    requires
        to@.len() > 0,
    ensures
        r@.len() == 256,
        forall|b: int|
            0 <= b < 256 ==> #[trigger] r@[b] == image(from@, to@, b as u8, from@.len() as int),
{
    let mut table: Vec<u8> = identity();
    let mut i: usize = 0;
    while i < from.len()
        invariant
            to@.len() > 0,
            i <= from@.len(),
            table@.len() == 256,
            forall|b: int|
                0 <= b < 256 ==> #[trigger] table@[b] == image(from@, to@, b as u8, i as int),
        decreases from@.len() - i,
    {
        let c = if i < to.len() {
            to[i]
        } else {
            to[to.len() - 1]
        };
        table.set(from[i] as usize, c);
        i += 1;
    }
    table
}

fn identity() -> (r: Vec<u8>)
    ensures
        r@.len() == 256,
        forall|b: int| 0 <= b < 256 ==> #[trigger] r@[b] == b,
{
    let mut table: Vec<u8> = Vec::new();
    let mut k: usize = 0;
    while k < 256
        invariant
            k <= 256,
            table@.len() == k,
            forall|b: int| 0 <= b < k ==> #[trigger] table@[b] == b,
        decreases 256 - k,
    {
        table.push(k as u8);
        k += 1;
    }
    table
}

/// The bytes that operand `i` means; none where it is not there.
pub open spec fn operand(sets: Seq<Seq<char>>, i: int) -> Seq<u8> {
    if i < sets.len() {
        set_from(encode_utf8(sets[i]), 0)
    } else {
        Seq::empty()
    }
}

/// What tr finds in its arguments.
pub open spec fn tr_tokens(argv: Seq<Seq<char>>) -> Seq<Tok> {
    arg_tokens(argv, Seq::empty(), false)
}

impl Tr {
    /// Whether this is what the tokens ask for.
    pub open spec fn follows(self, ts: Seq<Tok>) -> bool {
        let sets = values_from(ts, 0);
        let complement = ts.contains(Tok::Short('c')) || ts.contains(Tok::Short('C'));
        let set1 = operand(sets, 0);
        let set2 = operand(sets, 1);
        &&& self.delete == ts.contains(Tok::Short('d'))
        &&& self.squeeze == ts.contains(Tok::Short('s'))
        &&& self.wf()
        &&& forall|b: int|
            0 <= b < 256 ==> #[trigger] self.member@[b] == (set1.contains(b as u8) != complement)
        &&& forall|b: int|
            0 <= b < 256 ==> #[trigger] self.squeezed@[b] == if set2.len() > 0 {
                set2.contains(b as u8)
            } else {
                set1.contains(b as u8) != complement
            }
        &&& forall|b: int|
            0 <= b < 256 ==> #[trigger] self.becomes@[b] == if self.delete || set2.len() == 0 {
                b as u8
            } else {
                let from = sources(set1, complement);
                image(from, set2, b as u8, from.len() as int)
            }
    }
}

/// Starts tr.
pub fn run(argv: &Vec<String>) -> (r: Start<Tr>)
    ensures
        ({
            let ts = tr_tokens(strs(argv@));
            match r {
                Start::Done(said) => values_from(ts, 0).len() == 0 && said.says(
                    Seq::empty(),
                    "tr: missing operand"@ + seq!['\n'],
                    1,
                ),
                Start::Go(t) => values_from(ts, 0).len() > 0 && t.follows(ts) && t.last is None,
            }
        }),
{
    let none: Vec<char> = Vec::new();
    proof {
        assert(none@ =~= Seq::<char>::empty());
    }
    let ts = lex_args(argv, &none, false);
    let sets = values(&ts);
    if sets.len() == 0 {
        return Start::Done(Said::complaint("tr: missing operand", 1));
    }
    let delete = has_short(&ts, 'd');
    let squeeze = has_short(&ts, 's');
    let complement = has_short(&ts, 'c') || has_short(&ts, 'C');
    let set1 = expand_set(sets.at(0));
    let set2 = if sets.len() > 1 {
        expand_set(sets.at(1))
    } else {
        Vec::new()
    };
    let member = membership(&set1, complement);
    let squeezed = if set2.len() > 0 {
        membership(&set2, false)
    } else {
        membership(&set1, complement)
    };
    let becomes = if !delete && set2.len() > 0 {
        if complement {
            let from = outside(&set1);
            translation(&from, &set2)
        } else {
            translation(&set1, &set2)
        }
    } else {
        identity()
    };
    Start::Go(Tr { delete, squeeze, member, squeezed, becomes, last: None })
}

/// A squeezing tr never prints a byte that it squeezes twice in a row.
pub proof fn law_squeezed(t: Tr, input: Seq<u8>, i: int)
    requires
        t.wf(),
        t.squeeze,
        0 <= i,
        i + 1 < filtered(None, t.step(), input, 0).1.len(),
        t.squeezed@[filtered(None, t.step(), input, 0).1[i] as int],
    ensures
        filtered(None, t.step(), input, 0).1[i] != filtered(None, t.step(), input, 0).1[i + 1],
{
    lemma_squeezed(t, input, None, 0);
}

proof fn lemma_squeezed(t: Tr, input: Seq<u8>, last: Option<u8>, k: int)
    requires
        t.wf(),
        t.squeeze,
        0 <= k <= input.len(),
    ensures
        ({
            let out = filtered(last, t.step(), input, k).1;
            &&& out.len() > 0 && (last matches Some(l) && t.squeezed@[l as int]) ==> last
                != Some(out[0])
            &&& forall|i: int|
                0 <= i < out.len() - 1 && t.squeezed@[#[trigger] out[i] as int] ==> out[i] != out[i + 1]
        }),
    decreases input.len() - k,
{
    if k < input.len() {
        let (mid, s) = t.byte_step(last, input[k]);
        assert(t.step()(last, input[k]) == (mid, s));
        lemma_squeezed(t, input, mid, k + 1);
        let rest = filtered(mid, t.step(), input, k + 1).1;
        let out = filtered(last, t.step(), input, k).1;
        assert(out == s + rest);
        assert forall|i: int|
            0 <= i < out.len() - 1 && t.squeezed@[#[trigger] out[i] as int] implies out[i] != out[i
            + 1] by {
            if s.len() == 0 {
                assert(out =~= rest);
            } else if i > 0 {
                assert(out[i] == rest[i - 1]);
                assert(out[i + 1] == rest[i]);
            } else {
                assert(out[1] == rest[0]);
            }
        }
        if s.len() == 0 {
            assert(out =~= rest);
        }
    }
}

/// A deleting tr prints no byte of its set.
pub proof fn law_deleted_are_gone(t: Tr, input: Seq<u8>, i: int)
    requires
        t.wf(),
        t.delete,
        0 <= i < filtered(None, t.step(), input, 0).1.len(),
    ensures
        !t.member@[filtered(None, t.step(), input, 0).1[i] as int],
{
    lemma_deleted(t, input, None, 0);
}

proof fn lemma_deleted(t: Tr, input: Seq<u8>, last: Option<u8>, k: int)
    requires
        t.wf(),
        t.delete,
        0 <= k <= input.len(),
    ensures
        forall|i: int|
            0 <= i < filtered(last, t.step(), input, k).1.len() ==> !t.member@[(
            #[trigger] filtered(last, t.step(), input, k).1[i]) as int],
    decreases input.len() - k,
{
    if k < input.len() {
        let (mid, s) = t.byte_step(last, input[k]);
        assert(t.step()(last, input[k]) == (mid, s));
        lemma_deleted(t, input, mid, k + 1);
        let rest = filtered(mid, t.step(), input, k + 1).1;
        let out = filtered(last, t.step(), input, k).1;
        assert(out == s + rest);
        assert forall|i: int| 0 <= i < out.len() implies !t.member@[(#[trigger] out[i]) as int] by {
            if i >= s.len() {
                assert(out[i] == rest[i - s.len()]);
            } else {
                assert(out[i] == s[i]);
            }
        }
    }
}

/// A tr that neither deletes nor squeezes prints a byte for each byte that it reads.
pub proof fn law_translated_one_by_one(t: Tr, input: Seq<u8>)
    requires
        t.wf(),
        !t.delete,
        !t.squeeze,
    ensures
        filtered(None, t.step(), input, 0).1 == input.map_values(|b: u8| t.becomes@[b as int]),
{
    lemma_translated(t, input, None, 0);
    assert(input.skip(0) =~= input);
}

proof fn lemma_translated(t: Tr, input: Seq<u8>, last: Option<u8>, k: int)
    requires
        t.wf(),
        !t.delete,
        !t.squeeze,
        0 <= k <= input.len(),
    ensures
        filtered(last, t.step(), input, k).1 == input.skip(k).map_values(
            |b: u8| t.becomes@[b as int],
        ),
    decreases input.len() - k,
{
    let f = |b: u8| t.becomes@[b as int];
    if k < input.len() {
        let (mid, s) = t.byte_step(last, input[k]);
        assert(t.step()(last, input[k]) == (mid, s));
        lemma_translated(t, input, mid, k + 1);
        assert(filtered(last, t.step(), input, k).1 =~= input.skip(k).map_values(f));
    } else {
        assert(filtered(last, t.step(), input, k).1 =~= input.skip(k).map_values(f));
    }
}

/// A letter behind a backslash means a control character; any other byte means itself.
pub proof fn law_escaped_letters(b: u8)
    ensures
        escaped(110) == 10 && escaped(116) == 9 && escaped(114) == 13 && escaped(48) == 0,
        escaped(97) == 7 && escaped(98) == 8 && escaped(102) == 12 && escaped(118) == 11,
        escaped(92) == 92,
        b != 110 && b != 116 && b != 114 && b != 48 && b != 97 && b != 98 && b != 102 && b != 118
            ==> escaped(b) == b,
{
}

/// A range holds the bytes between its ends and both of them, each once, from its first end to
/// its second.
pub proof fn law_spans(a: u8, b: u8)
    ensures
        span(a, b).len() > 0,
        span(a, b)[0] == a,
        span(a, b).last() == b,
        a <= b ==> forall|k: int|
            0 <= k < span(a, b).len() - 1 ==> #[trigger] span(a, b)[k] + 1 == span(a, b)[k + 1],
        a >= b ==> forall|k: int|
            0 <= k < span(a, b).len() - 1 ==> #[trigger] span(a, b)[k] - 1 == span(a, b)[k + 1],
{
}

proof fn lemma_set_skip(a: Seq<u8>, b: Seq<u8>, i: int)
    requires
        0 <= i <= b.len(),
    ensures
        set_from(a + b, a.len() + i) == set_from(b, i),
    decreases b.len() - i,
{
    let s = a + b;
    let n = a.len() as int;
    if i < b.len() {
        assert(s[n + i] == b[i]);
        if i + 1 < b.len() {
            assert(s[n + i + 1] == b[i + 1]);
            lemma_set_skip(a, b, i + 2);
        }
        if i + 2 < b.len() {
            assert(s[n + i + 2] == b[i + 2]);
            lemma_set_skip(a, b, i + 3);
        }
        lemma_set_skip(a, b, i + 1);
    }
}

/// A set is written as bytes, as ranges and as letters behind a backslash, one after the other.
pub proof fn law_sets_are_read(c: u8, d: u8, rest: Seq<u8>)
    requires
        c != 92,
    ensures
        set_from(Seq::empty(), 0).len() == 0,
        rest.len() < 2 || rest[0] != 45 ==> set_from(seq![c] + rest, 0) == seq![c] + set_from(
            rest,
            0,
        ),
        set_from(seq![c, 45u8, d] + rest, 0) == span(c, d) + set_from(rest, 0),
        set_from(seq![92u8, d] + rest, 0) == seq![escaped(d)] + set_from(rest, 0),
{
    lemma_set_skip(seq![c], rest, 0);
    lemma_set_skip(seq![c, 45u8, d], rest, 0);
    lemma_set_skip(seq![92u8, d], rest, 0);
    let one = seq![c] + rest;
    assert(one[0] == c);
    if rest.len() >= 2 {
        assert(one[1] == rest[0]);
    }
    let range = seq![c, 45u8, d] + rest;
    assert(range[0] == c && range[1] == 45 && range[2] == d);
    let slash = seq![92u8, d] + rest;
    assert(slash[0] == 92 && slash[1] == d);
}

/// The complement of a set holds the bytes that are not in it, in order.
pub proof fn law_complement_takes_the_rest(set: Seq<u8>)
    ensures
        forall|b: u8| #[trigger] sources(set, true).contains(b) == !set.contains(b),
        forall|j: int, k: int|
            0 <= j < k < sources(set, true).len() ==> #[trigger] sources(set, true)[j]
                < #[trigger] sources(set, true)[k],
        sources(set, false) == set,
{
    lemma_others(set, 0);
    assert forall|b: u8| #[trigger] sources(set, true).contains(b) == !set.contains(b) by {
        assert(others_from(set, 0).contains(b) == (b >= 0 && !set.contains(b)));
    }
}

proof fn lemma_others(set: Seq<u8>, from: int)
    requires
        0 <= from <= 256,
    ensures
        forall|b: u8|
            #[trigger] others_from(set, from).contains(b) == (b >= from && !set.contains(b)),
        forall|j: int, k: int|
            0 <= j < k < others_from(set, from).len() ==> #[trigger] others_from(set, from)[j]
                < #[trigger] others_from(set, from)[k],
    decreases 256 - from,
{
    let all = others_from(set, from);
    if from < 256 {
        lemma_others(set, from + 1);
        let rest = others_from(set, from + 1);
        if set.contains(from as u8) {
            assert forall|b: u8| #[trigger] all.contains(b) == (b >= from && !set.contains(b)) by {
                assert(rest.contains(b) == (b >= from + 1 && !set.contains(b)));
            }
        } else {
            assert(all == seq![from as u8] + rest);
            assert forall|b: u8| #[trigger] all.contains(b) == (b >= from && !set.contains(b)) by {
                assert(rest.contains(b) == (b >= from + 1 && !set.contains(b)));
                if all.contains(b) {
                    let k = choose|k: int| 0 <= k < all.len() && all[k] == b;
                    if k > 0 {
                        assert(rest[k - 1] == b);
                    }
                }
                if b == from {
                    assert(all[0] == b);
                }
                if rest.contains(b) {
                    let k = choose|k: int| 0 <= k < rest.len() && rest[k] == b;
                    assert(all[k + 1] == b);
                }
            }
            assert forall|j: int, k: int| 0 <= j < k < all.len() implies #[trigger] all[j]
                < #[trigger] all[k] by {
                assert(rest[k - 1] == all[k]);
                assert(rest.contains(all[k]));
                if j > 0 {
                    assert(rest[j - 1] == all[j]);
                }
            }
        }
    } else {
        assert(all.len() == 0);
    }
}

/// A byte becomes the byte at its place in the second set, or the last one of that set where
/// it is shorter. Of several places the last counts, and a byte without a place stays.
pub proof fn law_bytes_become_their_partners(from: Seq<u8>, to: Seq<u8>, b: u8, k: int)
    requires
        to.len() > 0,
    ensures
        !from.contains(b) ==> image(from, to, b, from.len() as int) == b,
        0 <= k < from.len() && from[k] == b && (forall|j: int|
            k < j < from.len() ==> #[trigger] from[j] != b) ==> image(
            from,
            to,
            b,
            from.len() as int,
        ) == to[if k < to.len() {
            k
        } else {
            to.len() - 1
        }],
{
    if !from.contains(b) {
        lemma_image_passes(from, to, b, 0, from.len() as int);
    }
    if 0 <= k < from.len() && from[k] == b && (forall|j: int|
        k < j < from.len() ==> #[trigger] from[j] != b) {
        lemma_image_passes(from, to, b, k + 1, from.len() as int);
    }
}

proof fn lemma_image_passes(from: Seq<u8>, to: Seq<u8>, b: u8, lo: int, n: int)
    requires
        0 <= lo <= n <= from.len(),
        forall|j: int| lo <= j < n ==> #[trigger] from[j] != b,
    ensures
        image(from, to, b, n) == image(from, to, b, lo),
    decreases n - lo,
{
    if lo < n {
        assert(from[n - 1] != b);
        lemma_image_passes(from, to, b, lo, n - 1);
    }
}

/// Each byte adds itself to the output, or what it becomes; a byte that is deleted adds
/// nothing, and neither does one that is squeezed and was the last to be printed.
pub proof fn law_one_more_byte(t: Tr, input: Seq<u8>, b: u8)
    requires
        t.wf(),
    ensures
        ({
            let out = filtered(None, t.step(), input, 0).1;
            let more = filtered(None, t.step(), input.push(b), 0).1;
            let c = if t.delete {
                b
            } else {
                t.becomes@[b as int]
            };
            more == if t.delete && t.member@[b as int] {
                out
            } else if t.squeeze && t.squeezed@[c as int] && out.len() > 0 && out.last() == c {
                out
            } else {
                out.push(c)
            }
        }),
{
    lemma_last_printed(t, input, None, 0);
    let (mid, out) = filtered(None, t.step(), input, 0);
    assert(input + seq![b] =~= input.push(b));
    lemma_filtered_append(None, t.step(), input, seq![b], 0);
    let (end, added) = t.byte_step(mid, b);
    assert(t.step()(mid, b) == (end, added));
    assert(filtered(end, t.step(), seq![b], 1).1 =~= Seq::<u8>::empty());
    assert(filtered(mid, t.step(), seq![b], 0).1 =~= added);
    let c = if t.delete {
        b
    } else {
        t.becomes@[b as int]
    };
    assert(out + seq![c] =~= out.push(c));
    assert(out + Seq::<u8>::empty() =~= out);
}

proof fn lemma_last_printed(t: Tr, input: Seq<u8>, last: Option<u8>, i: int)
    requires
        0 <= i <= input.len(),
    ensures
        ({
            let (end, out) = filtered(last, t.step(), input, i);
            end == if out.len() > 0 {
                Some(out.last())
            } else {
                last
            }
        }),
    decreases input.len() - i,
{
    if i < input.len() {
        let (mid, added) = t.byte_step(last, input[i]);
        assert(t.step()(last, input[i]) == (mid, added));
        lemma_last_printed(t, input, mid, i + 1);
        let more = filtered(mid, t.step(), input, i + 1).1;
        if more.len() > 0 {
            assert((added + more).last() == more.last());
        } else {
            assert(added + more =~= added);
        }
    }
}

/// What tr makes of its arguments: bytes of the first set are deleted or become their partners
/// in the second, with the complement those that are not in it. Those of the second set are
/// squeezed, or of the first where there is no second.
pub proof fn law_options_of_tr(t: Tr, c: char, a: Seq<char>, b: Seq<char>, x: u8)
    requires
        t.follows(seq![Tok::Short(c), Tok::Value(a), Tok::Value(b)]),
    ensures
        t.delete == (c == 'd'),
        t.squeeze == (c == 's'),
        ({
            let first = set_from(encode_utf8(a), 0);
            let second = set_from(encode_utf8(b), 0);
            let turned = c == 'c' || c == 'C';
            &&& t.member@[x as int] == (first.contains(x) != turned)
            &&& second.len() > 0 ==> t.squeezed@[x as int] == second.contains(x)
            &&& second.len() == 0 ==> t.squeezed@[x as int] == (first.contains(x) != turned)
            &&& t.delete || second.len() == 0 ==> t.becomes@[x as int] == x
            &&& !t.delete && second.len() > 0 && first.contains(x) == turned ==> t.becomes@[x as int]
                == x
        }),
{
    let ts = seq![Tok::Short(c), Tok::Value(a), Tok::Value(b)];
    assert(ts[0] == Tok::Short(c) && ts[1] == Tok::Value(a) && ts[2] == Tok::Value(b));
    assert(ts.contains(Tok::Short(c)));
    reveal_with_fuel(values_from, 4);
    assert(values_from(ts, 0) =~= seq![a, b]);
    let first = set_from(encode_utf8(a), 0);
    let second = set_from(encode_utf8(b), 0);
    let turned = c == 'c' || c == 'C';
    let i = x as int;
    assert(i as u8 == x);
    assert(t.member@[i] == (first.contains(x) != turned));
    assert(t.squeezed@[i] == t.squeezed@[i]);
    assert(t.becomes@[i] == t.becomes@[i]);
    law_complement_takes_the_rest(first);
    let from = sources(first, turned);
    if !t.delete && second.len() > 0 && first.contains(x) == turned {
        assert(!from.contains(x));
        law_bytes_become_their_partners(from, second, x, 0);
    }
}

/// No option takes a value; the first argument is the name of the command.
pub proof fn law_options_with_values(name: Seq<char>, args: Seq<Seq<char>>)
    ensures
        tr_tokens(seq![name] + args) == crate::args::tokens(args, Seq::empty(), false),
        tr_tokens(Seq::empty()).len() == 0,
{
    assert((seq![name] + args).skip(1) =~= args);
}

} // verus!
