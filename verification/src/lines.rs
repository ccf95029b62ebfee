//! Input that comes in chunks and is read line by line.
use vstd::prelude::*;
use crate::text::{
    append_all, find_from, lemma_find_from, lemma_find_is, rows, split, split_bytes, split_from,
};

verus! {

/// The lines of `s` that a newline ends, without the newline.
pub open spec fn complete(s: Seq<u8>) -> Seq<Seq<u8>> {
    split(s, 10u8).drop_last()
}

/// What stands behind the last newline of `s`.
pub open spec fn partial(s: Seq<u8>) -> Seq<u8> {
    split(s, 10u8).last()
}

/// What still waits for its newline.
#[derive(Debug)]
pub struct LineBuffer {
    pending: Vec<u8>,
}

impl View for LineBuffer {
    type V = Seq<u8>;

    closed spec fn view(&self) -> Seq<u8> {
        self.pending@
    }
}

impl LineBuffer {
    /// A buffer in which nothing waits.
    pub fn new() -> (r: Self)
        ensures
            r@ == Seq::<u8>::empty(),
    {
        LineBuffer { pending: Vec::new() }
    }

    /// Takes a chunk and gives the lines that are complete with it.
    pub fn feed(&mut self, chunk: &[u8]) -> (r: Vec<Vec<u8>>)
        ensures
            rows(r@) == complete(old(self)@ + chunk@),
            final(self)@ == partial(old(self)@ + chunk@),
    {
        append_all(&mut self.pending, chunk);
        let ghost s = self.pending@;
        let mut parts = split_bytes(&self.pending, 10u8);
        let ghost all = parts@;
        proof {
            lemma_split_len(s, 0);
        }
        match parts.pop() {
            Some(last) => {
                proof {
                    assert(rows(parts@) =~= rows(all).drop_last());
                    assert(rows(all).last() == last@);
                }
                self.pending = last;
            },
            None => {},
        }
        parts
    }

    /// Takes what waits when no newline comes any more.
    pub fn take(&mut self) -> (r: Vec<u8>)
        ensures
            r@ == old(self)@,
            final(self)@ == Seq::<u8>::empty(),
    {
        let mut r: Vec<u8> = Vec::new();
        std::mem::swap(&mut self.pending, &mut r);
        r
    }

    /// Tests whether nothing waits.
    pub fn is_empty(&self) -> (r: bool)
        ensures
            r == (self@.len() == 0),
    {
        self.pending.len() == 0
    }
}

proof fn lemma_split_len(s: Seq<u8>, from: int)
    requires
        0 <= from <= s.len(),
    ensures
        split_from(s, 10u8, from).len() > 0,
    decreases s.len() - from,
{
}

proof fn lemma_split_shift(pre: Seq<u8>, s: Seq<u8>, from: int)
    requires
        0 <= from <= s.len(),
    ensures
        split_from(pre + s, 10u8, pre.len() + from) == split_from(s, 10u8, from),
    decreases s.len() - from,
{
    let all = pre + s;
    let n = pre.len() as int;
    lemma_find_from(s, 10u8, from);
    let j = find_from(s, 10u8, from);
    assert forall|k: int| n + from <= k < n + j implies all[k] != 10u8 by {
        assert(all[k] == s[k - n]);
    }
    lemma_find_is(all, 10u8, n + from, n + j);
    if j < s.len() {
        assert(all[n + j] == s[j]);
        lemma_split_shift(pre, s, j + 1);
        assert(all.subrange(n + from, n + j) =~= s.subrange(from, j));
    } else {
        assert(all.skip(n + from) =~= s.skip(from));
    }
}

proof fn lemma_split_append(a: Seq<u8>, b: Seq<u8>, from: int)
    requires
        0 <= from <= a.len(),
    ensures
        split_from(a + b, 10u8, from) == split_from(a, 10u8, from).drop_last() + split(
            split_from(a, 10u8, from).last() + b,
            10u8,
        ),
    decreases a.len() - from,
{
    let all = a + b;
    lemma_find_from(a, 10u8, from);
    let j = find_from(a, 10u8, from);
    if j < a.len() {
        assert forall|k: int| from <= k < j implies all[k] != 10u8 by {
            assert(all[k] == a[k]);
        }
        assert(all[j] == a[j]);
        lemma_find_is(all, 10u8, from, j);
        assert(all.subrange(from, j) =~= a.subrange(from, j));
        lemma_split_append(a, b, j + 1);
        lemma_split_len(a, j + 1);
        let head = seq![a.subrange(from, j)];
        let rest = split_from(a, 10u8, j + 1);
        assert((head + rest).drop_last() =~= head + rest.drop_last());
        assert((head + rest).last() == rest.last());
        assert(head + (rest.drop_last() + split(rest.last() + b, 10u8)) =~= (head + rest).drop_last()
            + split(rest.last() + b, 10u8));
    } else {
        let tail = a.skip(from);
        assert(all =~= a.take(from) + (tail + b));
        lemma_split_shift(a.take(from), tail + b, 0);
        assert(split_from(a, 10u8, from) =~= seq![tail]);
        assert(seq![tail].drop_last() =~= Seq::<Seq<u8>>::empty());
        assert(Seq::<Seq<u8>>::empty() + split(tail + b, 10u8) =~= split(tail + b, 10u8));
    }
}

/// The lines of two chunks are the lines of the first, and those of what it left
/// with the second.
pub proof fn lemma_lines_append(a: Seq<u8>, b: Seq<u8>)
    ensures
        complete(a + b) == complete(a) + complete(partial(a) + b),
        partial(a + b) == partial(partial(a) + b),
{
    lemma_split_append(a, b, 0);
    lemma_split_len(a, 0);
    lemma_split_len(partial(a) + b, 0);
    let x = split(a, 10u8).drop_last();
    let y = split(partial(a) + b, 10u8);
    assert((x + y).drop_last() =~= x + y.drop_last());
    assert((x + y).last() == y.last());
}

/// There are not more lines than bytes.
pub proof fn lemma_fewer_lines(s: Seq<u8>)
    ensures
        complete(s).len() + partial(s).len() <= s.len(),
{
    lemma_fewer_parts(s, 0);
}

proof fn lemma_fewer_parts(s: Seq<u8>, from: int)
    requires
        0 <= from <= s.len(),
    ensures
        split_from(s, 10u8, from).len() > 0,
        split_from(s, 10u8, from).len() + split_from(s, 10u8, from).last().len() <= s.len() - from
            + 1,
    decreases s.len() - from,
{
    lemma_find_from(s, 10u8, from);
    let j = find_from(s, 10u8, from);
    if j < s.len() {
        lemma_fewer_parts(s, j + 1);
        let rest = split_from(s, 10u8, j + 1);
        assert((seq![s.subrange(from, j)] + rest).last() == rest.last());
    } else {
        assert(split_from(s, 10u8, from) =~= seq![s.skip(from)]);
    }
}

// ---------------------------------------------------------------------------
// Filters
// ---------------------------------------------------------------------------

/// What a filter does with the items from `i` on, lines or bytes: the state that it ends in, and
/// its output. A step takes a state and an item to the next state and the output
/// for that item.
pub open spec fn filtered<S, I, O>(
    st: S,
    step: spec_fn(S, I) -> (S, Seq<O>),
    items: Seq<I>,
    i: int,
) -> (S, Seq<O>)
    decreases items.len() - i,
{
    if i < 0 || i >= items.len() {
        (st, Seq::empty())
    } else {
        let (mid, out) = step(st, items[i]);
        let (end, more) = filtered(mid, step, items, i + 1);
        (end, out + more)
    }
}

/// What a filter in which `pending` waits does with a chunk: what waits then, the
/// state, and the output.
pub open spec fn fed<S, O>(
    pending: Seq<u8>,
    st: S,
    step: spec_fn(S, Seq<u8>) -> (S, Seq<O>),
    chunk: Seq<u8>,
) -> (Seq<u8>, S, Seq<O>) {
    let (end, out) = filtered(st, step, complete(pending + chunk), 0);
    (partial(pending + chunk), end, out)
}

pub proof fn lemma_filtered_append<S, I, O>(
    st: S,
    step: spec_fn(S, I) -> (S, Seq<O>),
    a: Seq<I>,
    b: Seq<I>,
    i: int,
)
    requires
        0 <= i <= a.len(),
    ensures
        ({
            let (mid, x) = filtered(st, step, a, i);
            let (end, y) = filtered(mid, step, b, 0);
            filtered(st, step, a + b, i) == (end, x + y)
        }),
    decreases a.len() - i,
{
    if i < a.len() {
        let (s1, o1) = step(st, a[i]);
        assert((a + b)[i] == a[i]);
        lemma_filtered_append(s1, step, a, b, i + 1);
        let (mid, x) = filtered(s1, step, a, i + 1);
        let (end, y) = filtered(mid, step, b, 0);
        assert(o1 + (x + y) =~= (o1 + x) + y);
    } else {
        lemma_filtered_skip(st, step, a, b, 0);
        let (end, y) = filtered(st, step, b, 0);
        assert(Seq::<O>::empty() + y =~= y);
    }
}

proof fn lemma_filtered_skip<S, I, O>(
    st: S,
    step: spec_fn(S, I) -> (S, Seq<O>),
    a: Seq<I>,
    b: Seq<I>,
    i: int,
)
    requires
        0 <= i <= b.len(),
    ensures
        filtered(st, step, a + b, a.len() + i) == filtered(st, step, b, i),
    decreases b.len() - i,
{
    if i < b.len() {
        assert((a + b)[a.len() + i] == b[i]);
        lemma_filtered_skip(step(st, b[i]).0, step, a, b, i + 1);
    }
}

/// How input is cut into chunks does not matter: a filter that is fed one chunk and
/// then another ends as if it had been fed both at once, with the same output.
pub proof fn law_chunks_do_not_matter<S, O>(
    pending: Seq<u8>,
    st: S,
    step: spec_fn(S, Seq<u8>) -> (S, Seq<O>),
    a: Seq<u8>,
    b: Seq<u8>,
)
    ensures
        ({
            let (p1, s1, o1) = fed(pending, st, step, a);
            let (p2, s2, o2) = fed(p1, s1, step, b);
            fed(pending, st, step, a + b) == (p2, s2, o1 + o2)
        }),
{
    assert(pending + (a + b) =~= (pending + a) + b);
    lemma_lines_append(pending + a, b);
    lemma_filtered_append(
        st,
        step,
        complete(pending + a),
        complete(partial(pending + a) + b),
        0,
    );
}

/// How input is cut into chunks does not matter to a filter that works byte by byte
/// either.
pub proof fn law_bytes_do_not_wait<S, O>(
    st: S,
    step: spec_fn(S, u8) -> (S, Seq<O>),
    a: Seq<u8>,
    b: Seq<u8>,
)
    ensures
        ({
            let (s1, o1) = filtered(st, step, a, 0);
            let (s2, o2) = filtered(s1, step, b, 0);
            filtered(st, step, a + b, 0) == (s2, o1 + o2)
        }),
{
    lemma_filtered_append(st, step, a, b, 0);
}

/// A line is complete where a newline ends it; what stands behind the last newline waits.
pub proof fn law_newlines_complete_lines(line: Seq<u8>, rest: Seq<u8>)
    requires
        forall|k: int| 0 <= k < line.len() ==> #[trigger] line[k] != 10u8,
    ensures
        complete(line).len() == 0,
        partial(line) == line,
        complete(line + seq![10u8] + rest) == seq![line] + complete(rest),
        partial(line + seq![10u8] + rest) == partial(rest),
{
    lemma_find_is(line, 10u8, 0, line.len() as int);
    assert(line.skip(0) =~= line);
    assert(split(line, 10u8) =~= seq![line]);
    crate::text::law_split_at_a_separator(line, 10u8, rest);
    lemma_split_len(rest, 0);
    assert((seq![line] + split(rest, 10u8)).drop_last() =~= seq![line] + complete(rest));
}

} // verus!
