//! Sample-rate conversion for audio callbacks.
//!
//! Callbacks are not guaranteed to hold the number of frames that a fixed-size
//! converter wants. Padding every callback by itself would insert artificial
//! silence, so [`StreamingResampler`] keeps the residue until a complete block
//! is there: where the callbacks cut the signal makes no difference
//! ([`law_chunking_does_not_matter`],
//! [`law_output_does_not_depend_on_chunking`]).

use crate::binary32::Binary32;
use crate::converters::ran;
use crate::resample::same_reply;
use vstd::prelude::*;

verus! {

/// Frames that the converter takes at a time.
pub const BLOCK_FRAMES: usize = 1024;

/// How many whole blocks a signal holds.
pub open spec fn block_count(s: Seq<Binary32>, n: nat) -> nat {
    s.len() / n
}

/// The `i`-th block of a signal.
pub open spec fn block(s: Seq<Binary32>, n: nat, i: int) -> Seq<Binary32> {
    s.subrange(i * n, i * n + n)
}

/// What is left of a signal after `k` blocks.
pub open spec fn after(s: Seq<Binary32>, n: nat, k: nat) -> Seq<Binary32> {
    s.skip((k * n) as int)
}

/// What is left of a signal after all its whole blocks.
pub open spec fn residue(s: Seq<Binary32>, n: nat) -> Seq<Binary32> {
    after(s, n, block_count(s, n))
}

/// The first `k` replies, put together.
pub open spec fn joined(replies: Seq<Vec<Binary32>>, k: nat) -> Seq<Binary32>
    decreases k,
{
    if k == 0 {
        Seq::empty()
    } else {
        joined(replies, (k - 1) as nat) + replies[k - 1]@
    }
}

/// The blocks of a signal went through a converter one after the other: block
/// `i` took it from `states[i]` to `states[i + 1]` and gave `replies[i]`.
pub open spec fn chained<C, X: Fn(C, &[Binary32]) -> (C, Result<Vec<Binary32>, String>)>(
    run: X,
    all: Seq<Binary32>,
    states: Seq<C>,
    replies: Seq<Vec<Binary32>>,
) -> bool {
    forall|i: int|
        0 <= i < replies.len() ==> ran(
            run,
            states[i],
            block(all, BLOCK_FRAMES as nat, i),
            states[i + 1],
            Ok(#[trigger] replies[i]),
        )
}

/// Handing over `input` while `pending` waits gives `out` and leaves `rest`:
/// every whole block went through the converter once and in order, and the
/// residue is kept. `states` are those of the converter.
pub open spec fn fed<C, X: Fn(C, &[Binary32]) -> (C, Result<Vec<Binary32>, String>)>(
    run: X,
    pending: Seq<Binary32>,
    input: Seq<Binary32>,
    states: Seq<C>,
    replies: Seq<Vec<Binary32>>,
    out: Seq<Binary32>,
    rest: Seq<Binary32>,
) -> bool {
    let all = pending + input;
    let n = BLOCK_FRAMES as nat;
    &&& rest == residue(all, n)
    &&& replies.len() == block_count(all, n)
    &&& states.len() == replies.len() + 1
    &&& out == joined(replies, replies.len())
    &&& chained(run, all, states, replies)
}

/// Handing over `input` while `pending` waits fails with `e` and leaves `rest`:
/// the blocks before the refused one went through the converter once and in
/// order, then the refused one, which is kept with what follows it.
pub open spec fn refused<C, X: Fn(C, &[Binary32]) -> (C, Result<Vec<Binary32>, String>)>(
    run: X,
    pending: Seq<Binary32>,
    input: Seq<Binary32>,
    states: Seq<C>,
    replies: Seq<Vec<Binary32>>,
    e: String,
    rest: Seq<Binary32>,
) -> bool {
    let all = pending + input;
    let n = BLOCK_FRAMES as nat;
    let k = replies.len();
    &&& k < block_count(all, n)
    &&& states.len() == k + 2
    &&& chained(run, all, states, replies)
    &&& ran(run, states[k as int], block(all, n, k as int), states[k as int + 1], Err(e))
    &&& rest == after(all, n, k)
}

/// Handing over `input` while `pending` waits gives `r` and leaves `rest`, and
/// takes the converter through `states`: every whole block was converted in
/// order and the residue is kept, or a block was refused and is kept with what
/// follows it.
pub open spec fn blocks_converted<
    C,
    X: Fn(C, &[Binary32]) -> (C, Result<Vec<Binary32>, String>),
>(
    run: X,
    pending: Seq<Binary32>,
    input: Seq<Binary32>,
    states: Seq<C>,
    r: Result<Vec<Binary32>, String>,
    rest: Seq<Binary32>,
) -> bool {
    match r {
        Ok(out) => exists|replies: Seq<Vec<Binary32>>| #[trigger]
            fed(run, pending, input, states, replies, out@, rest),
        Err(e) => exists|replies: Seq<Vec<Binary32>>| #[trigger]
            refused(run, pending, input, states, replies, e, rest),
    }
}

/// Keeps what does not fill a block.
#[derive(Debug)]
pub struct StreamingResampler {
    pending: Vec<Binary32>,
}

impl View for StreamingResampler {
    type V = Seq<Binary32>;

    closed spec fn view(&self) -> Seq<Binary32> {
        self.pending@
    }
}

impl StreamingResampler {
    /// A resampler between two rates; `None` where there is nothing to do.
    pub fn new(src_sr: u32, dst_sr: u32) -> (r: Option<Self>)
        ensures
            r is None <==> src_sr == dst_sr,
            r matches Some(s) ==> s@ == Seq::<Binary32>::empty(),
    {
        if src_sr == dst_sr {
            None
        } else {
            Some(StreamingResampler { pending: Vec::new() })
        }
    }

    /// Samples that wait for their block to fill up.
    pub fn pending_len(&self) -> (n: usize)
        ensures
            n == self@.len(),
    {
        self.pending.len()
    }

    /// Appends one callback and converts only complete blocks. The incomplete
    /// rest is retained and prepended to the next callback instead of being
    /// padded. A block that the converter refuses stays where it is. `run` puts
    /// one block through the converter, which comes back with the result.
    pub fn process<C, X>(&mut self, input: &[Binary32], converter: C, run: &X) -> (r: (
        C,
        Result<Vec<Binary32>, String>,
    )) where X: Fn(C, &[Binary32]) -> (C, Result<Vec<Binary32>, String>)
        requires
            forall|c: C, a: &[Binary32]|
                a@.len() == BLOCK_FRAMES ==> #[trigger] run.requires((c, a)),
        ensures
            exists|states: Seq<C>, out: Result<Vec<Binary32>, String>, after: Seq<Binary32>|
                #[trigger] blocks_converted(*run, old(self)@, input@, states, out, after)
                    && states[0] == converter && states.last() == r.0 && r.1 == out && final(self)@
                    == after,
    {
        let ghost all = self@ + input@;
        let ghost n = BLOCK_FRAMES as nat;
        self.pending.extend_from_slice(input);
        assert(self.pending@ =~= all);
        let mut out: Vec<Binary32> = Vec::new();
        let mut c: C = converter;
        let ghost mut states: Seq<C> = seq![c];
        let ghost mut replies: Seq<Vec<Binary32>> = Seq::empty();
        let mut done: usize = 0;
        let total: usize = self.pending.len() / BLOCK_FRAMES;
        assert(after(all, n, 0) =~= all);
        while done < total
            invariant
                done <= total,
                n == BLOCK_FRAMES,
                all == old(self)@ + input@,
                total == block_count(all, n),
                total * n <= all.len(),
                self.pending@ == after(all, n, done as nat),
                replies.len() == done,
                states.len() == done + 1,
                states[0] == converter,
                states.last() == c,
                out@ == joined(replies, done as nat),
                chained(*run, all, states, replies),
                forall|c: C, a: &[Binary32]|
                    a@.len() == BLOCK_FRAMES ==> #[trigger] run.requires((c, a)),
            decreases total - done,
        {
            assert(done * n + n <= all.len()) by (nonlinear_arith)
                requires
                    done + 1 <= total,
                    total * n <= all.len(),
                    n > 0,
            ;
            let rest: Vec<Binary32> = self.pending.split_off(BLOCK_FRAMES);
            assert(self.pending@ =~= block(all, n, done as int));
            let whole: &[Binary32] = self.pending.as_slice();
            let ghost before = c;
            let (next, reply) = run(c, whole);
            c = next;
            let ghost further = states.push(c);
            proof {
                assert(run.ensures((before, whole), (c, reply)));
                assert(ran(*run, before, block(all, n, done as int), c, reply));
                assert forall|i: int| 0 <= i < replies.len() implies ran(
                    *run,
                    further[i],
                    block(all, n, i),
                    further[i + 1],
                    Ok(#[trigger] replies[i]),
                ) by {
                    assert(further[i] == states[i] && further[i + 1] == states[i + 1]);
                }
            }
            match reply {
                Ok(produced) => {
                    let mut produced: Vec<Binary32> = produced;
                    proof {
                        let longer = replies.push(produced);
                        lemma_joined(replies, longer, done as nat);
                        assert forall|i: int| 0 <= i < longer.len() implies ran(
                            *run,
                            further[i],
                            block(all, n, i),
                            further[i + 1],
                            Ok(#[trigger] longer[i]),
                        ) by {
                            if i < replies.len() {
                                assert(longer[i] == replies[i]);
                            }
                        }
                        replies = longer;
                        states = further;
                    }
                    out.append(&mut produced);
                    self.pending = rest;
                    assert((done + 1) * n == done * n + n) by (nonlinear_arith);
                    assert(self.pending@ =~= after(all, n, (done + 1) as nat));
                },
                Err(e) => {
                    let mut rest: Vec<Binary32> = rest;
                    self.pending.append(&mut rest);
                    assert(self.pending@ =~= after(all, n, done as nat));
                    let r: Result<Vec<Binary32>, String> = Err(e);
                    proof {
                        assert(refused(
                            *run,
                            old(self)@,
                            input@,
                            further,
                            replies,
                            r->Err_0,
                            self@,
                        ));
                        assert(blocks_converted(*run, old(self)@, input@, further, r, self@));
                    }
                    return (c, r);
                },
            }
            done = done + 1;
        }
        let r: Result<Vec<Binary32>, String> = Ok(out);
        proof {
            assert(fed(*run, old(self)@, input@, states, replies, r->Ok_0@, self@));
            assert(blocks_converted(*run, old(self)@, input@, states, r, self@));
        }
        (c, r)
    }
}

proof fn lemma_joined(a: Seq<Vec<Binary32>>, b: Seq<Vec<Binary32>>, k: nat)
    requires
        k <= a.len(),
        a.len() <= b.len(),
        forall|i: int| 0 <= i < a.len() ==> a[i] == b[i],
    ensures
        joined(a, k) == joined(b, k),
    decreases k,
{
    if k > 0 {
        lemma_joined(a, b, (k - 1) as nat);
    }
}

/// Where the callbacks cut the signal makes no difference: handing over `a`
/// and then `b` forms the same blocks, and leaves the same rest, as handing
/// over both at once.
pub proof fn law_chunking_does_not_matter(
    pending: Seq<Binary32>,
    a: Seq<Binary32>,
    b: Seq<Binary32>,
    n: nat,
)
    requires
        n > 0,
    ensures
        ({
            let first = pending + a;
            let second = residue(first, n) + b;
            let whole = pending + (a + b);
            let k = block_count(first, n);
            &&& block_count(whole, n) == k + block_count(second, n)
            &&& forall|i: int| 0 <= i < k ==> #[trigger] block(whole, n, i) == block(first, n, i)
            &&& forall|i: int|
                0 <= i < block_count(second, n) ==> #[trigger] block(second, n, i) == block(
                    whole,
                    n,
                    k + i,
                )
            &&& residue(whole, n) == residue(second, n)
        }),
{
    let first = pending + a;
    let k = block_count(first, n);
    let second = residue(first, n) + b;
    let whole = pending + (a + b);
    vstd::arithmetic::div_mod::lemma_fundamental_div_mod(first.len() as int, n as int);
    vstd::arithmetic::mul::lemma_mul_is_commutative(n as int, k as int);
    assert(0 <= k * n <= first.len()) by (nonlinear_arith)
        requires
            first.len() == n * k + first.len() % n,
            first.len() % n >= 0,
    ;
    assert(whole =~= first + b);
    assert(second =~= whole.skip((k * n) as int));
    assert(whole.len() == k * n + second.len());
    vstd::arithmetic::div_mod::lemma_div_multiples_vanish_fancy(
        k as int,
        (second.len() % n) as int,
        n as int,
    );
    lemma_shifted_division(k, second.len(), n);
    let l = block_count(second, n);
    assert forall|i: int| 0 <= i < k implies #[trigger] block(whole, n, i) == block(
        first,
        n,
        i,
    ) by {
        assert(0 <= i * n && i * n + n <= k * n) by (nonlinear_arith)
            requires
                0 <= i < k,
                n > 0,
        ;
        assert(block(whole, n, i) =~= block(first, n, i));
    }
    vstd::arithmetic::div_mod::lemma_fundamental_div_mod(second.len() as int, n as int);
    assert(l * n <= second.len()) by (nonlinear_arith)
        requires
            second.len() == n * l + second.len() % n,
            second.len() % n >= 0,
    ;
    assert forall|i: int| 0 <= i < l implies #[trigger] block(second, n, i) == block(
        whole,
        n,
        k + i,
    ) by {
        assert(0 <= i * n && i * n + n <= l * n) by (nonlinear_arith)
            requires
                0 <= i < l,
                n > 0,
        ;
        assert((k + i) * n == k * n + i * n) by (nonlinear_arith);
        assert(block(second, n, i) =~= block(whole, n, k + i));
    }
    assert((k + l) * n == k * n + l * n) by (nonlinear_arith);
    assert(residue(whole, n) =~= residue(second, n));
}

proof fn lemma_shifted_division(k: nat, m: nat, n: nat)
    requires
        n > 0,
    ensures
        (k * n + m) / n == k + m / n,
{
    vstd::arithmetic::div_mod::lemma_fundamental_div_mod(m as int, n as int);
    assert(k * n + m == (k + m / n) * n + m % n) by (nonlinear_arith)
        requires
            m == n * (m / n) + m % n,
    ;
    vstd::arithmetic::div_mod::lemma_fundamental_div_mod_converse(
        (k * n + m) as int,
        n as int,
        (k + m / n) as int,
        (m % n) as int,
    );
}

proof fn lemma_joined_concat(a: Seq<Vec<Binary32>>, b: Seq<Vec<Binary32>>, k: nat)
    requires
        k <= b.len(),
    ensures
        joined(a + b, a.len() + k) == joined(a, a.len()) + joined(b, k),
    decreases k,
{
    if k == 0 {
        lemma_joined(a, a + b, a.len());
        assert(joined(a, a.len()) + joined(b, 0) =~= joined(a, a.len()));
    } else {
        lemma_joined_concat(a, b, (k - 1) as nat);
        assert((a + b)[a.len() + k - 1] == b[k - 1]);
        assert(joined(a, a.len()) + joined(b, k) =~= joined(a, a.len()) + joined(
            b,
            (k - 1) as nat,
        ) + b[k - 1]@);
    }
}

/// Two calls that went well are one: the converter goes through the same
/// states, the outputs follow one another, and the rest is the same.
pub proof fn law_two_calls_are_one<C, X: Fn(C, &[Binary32]) -> (C, Result<Vec<Binary32>, String>)>(
    run: X,
    pending: Seq<Binary32>,
    a: Seq<Binary32>,
    b: Seq<Binary32>,
    p: Seq<C>,
    q: Seq<C>,
    first: Seq<Vec<Binary32>>,
    second: Seq<Vec<Binary32>>,
    out_a: Seq<Binary32>,
    out_b: Seq<Binary32>,
    between: Seq<Binary32>,
    rest: Seq<Binary32>,
)
    requires
        fed(run, pending, a, p, first, out_a, between),
        fed(run, between, b, q, second, out_b, rest),
        p.last() == q[0],
    ensures
        fed(
            run,
            pending,
            a + b,
            p + q.drop_first(),
            first + second,
            out_a + out_b,
            rest,
        ),
        (p + q.drop_first())[0] == p[0],
        (p + q.drop_first()).last() == q.last(),
{
    let n = BLOCK_FRAMES as nat;
    law_chunking_does_not_matter(pending, a, b, n);
    lemma_joined_concat(first, second, second.len());
    let whole = pending + (a + b);
    let k = first.len();
    let s = p + q.drop_first();
    assert forall|i: int| 0 <= i < k + second.len() implies ran(
        run,
        s[i],
        block(whole, n, i),
        s[i + 1],
        Ok(#[trigger] (first + second)[i]),
    ) by {
        if i < k {
            assert((first + second)[i] == first[i]);
            assert(block(whole, n, i) == block(pending + a, n, i));
            assert(s[i] == p[i] && s[i + 1] == p[i + 1]);
        } else {
            let j = i - k;
            assert((first + second)[i] == second[j]);
            assert(block(between + b, n, j) == block(whole, n, k + j));
            assert(s[i] == q[j] && s[i + 1] == q[j + 1]);
        }
    }
}

/// Handing over `pieces` one after the other, from `pending` on: call `i` took
/// the converter through `states[i]`, from where the call before left it, got
/// `replies[i]` and gave `outs[i]`, and `rest` is left after all of them.
pub open spec fn fed_in_pieces<C, X: Fn(C, &[Binary32]) -> (C, Result<Vec<Binary32>, String>)>(
    run: X,
    pending: Seq<Binary32>,
    pieces: Seq<Seq<Binary32>>,
    c: C,
    states: Seq<Seq<C>>,
    replies: Seq<Seq<Vec<Binary32>>>,
    outs: Seq<Seq<Binary32>>,
    rest: Seq<Binary32>,
    d: C,
) -> bool
    decreases pieces.len(),
{
    &&& pieces.len() == states.len() == replies.len() == outs.len()
    &&& if pieces.len() == 0 {
        rest == pending && d == c
    } else {
        let between = residue(pending + pieces[0], BLOCK_FRAMES as nat);
        &&& fed(run, pending, pieces[0], states[0], replies[0], outs[0], between)
        &&& states[0][0] == c
        &&& fed_in_pieces(
            run,
            between,
            pieces.drop_first(),
            states[0].last(),
            states.drop_first(),
            replies.drop_first(),
            outs.drop_first(),
            rest,
            d,
        )
    }
}

/// Where the callbacks cut the signal makes no difference to what comes out
/// either: whatever a signal gives in pieces of any sizes, the same signal can
/// give in one call. The converter goes from the same state to the same state,
/// and the samples and the rest are the same.
pub proof fn law_pieces_are_one_call<
    C,
    X: Fn(C, &[Binary32]) -> (C, Result<Vec<Binary32>, String>),
>(
    run: X,
    pending: Seq<Binary32>,
    pieces: Seq<Seq<Binary32>>,
    c: C,
    states: Seq<Seq<C>>,
    replies: Seq<Seq<Vec<Binary32>>>,
    outs: Seq<Seq<Binary32>>,
    rest: Seq<Binary32>,
    d: C,
) -> (s: Seq<C>)
    requires
        pieces.len() == 0 ==> pending.len() < BLOCK_FRAMES,
        fed_in_pieces(run, pending, pieces, c, states, replies, outs, rest, d),
    ensures
        fed(run, pending, pieces.flatten(), s, replies.flatten(), outs.flatten(), rest),
        s[0] == c,
        s.last() == d,
    decreases pieces.len(),
{
    let n = BLOCK_FRAMES as nat;
    if pieces.len() == 0 {
        let all = pending + pieces.flatten();
        assert(all =~= pending);
        assert(block_count(all, n) == 0);
        assert(residue(all, n) =~= pending);
        assert(outs.flatten() =~= joined(replies.flatten(), 0));
        seq![c]
    } else {
        let between = residue(pending + pieces[0], n);
        lemma_residue(pending + pieces[0], n);
        let q = law_pieces_are_one_call(
            run,
            between,
            pieces.drop_first(),
            states[0].last(),
            states.drop_first(),
            replies.drop_first(),
            outs.drop_first(),
            rest,
            d,
        );
        law_two_calls_are_one(
            run,
            pending,
            pieces[0],
            pieces.drop_first().flatten(),
            states[0],
            q,
            replies[0],
            replies.drop_first().flatten(),
            outs[0],
            outs.drop_first().flatten(),
            between,
            rest,
        );
        states[0] + q.drop_first()
    }
}

/// A converter does one thing with a block: where it goes from a state, and
/// what it answers, are fixed.
pub open spec fn one_outcome<
    C,
    X: Fn(C, &[Binary32]) -> (C, Result<Vec<Binary32>, String>),
>(run: X) -> bool {
    forall|
        c: C,
        audio: Seq<Binary32>,
        d: C,
        e: C,
        x: Result<Vec<Binary32>, String>,
        y: Result<Vec<Binary32>, String>,
    | #[trigger]
        ran(run, c, audio, d, x) && #[trigger] ran(run, c, audio, e, y) ==> d == e && same_reply(
            x,
            y,
        )
}

/// Two equal converters that are given the same signal, one in a single call
/// and one in pieces of any sizes, give the same samples, leave the same rest
/// and end up the same.
pub proof fn law_output_does_not_depend_on_chunking<
    C,
    X: Fn(C, &[Binary32]) -> (C, Result<Vec<Binary32>, String>),
>(
    run: X,
    pending: Seq<Binary32>,
    pieces: Seq<Seq<Binary32>>,
    c: C,
    states: Seq<Seq<C>>,
    replies: Seq<Seq<Vec<Binary32>>>,
    outs: Seq<Seq<Binary32>>,
    rest: Seq<Binary32>,
    d: C,
    at_once: Seq<C>,
    replies_at_once: Seq<Vec<Binary32>>,
    out: Seq<Binary32>,
    rest_at_once: Seq<Binary32>,
)
    requires
        one_outcome(run),
        pieces.len() > 0,
        fed_in_pieces(run, pending, pieces, c, states, replies, outs, rest, d),
        fed(run, pending, pieces.flatten(), at_once, replies_at_once, out, rest_at_once),
        at_once[0] == c,
    ensures
        outs.flatten() == out,
        rest == rest_at_once,
        d == at_once.last(),
{
    let s = law_pieces_are_one_call(
        run,
        pending,
        pieces,
        c,
        states,
        replies,
        outs,
        rest,
        d,
    );
    lemma_one_run(
        run,
        pending + pieces.flatten(),
        s,
        at_once,
        replies.flatten(),
        replies_at_once,
        replies_at_once.len(),
    );
}

proof fn lemma_one_run<C, X: Fn(C, &[Binary32]) -> (C, Result<Vec<Binary32>, String>)>(
    run: X,
    all: Seq<Binary32>,
    p: Seq<C>,
    q: Seq<C>,
    a: Seq<Vec<Binary32>>,
    b: Seq<Vec<Binary32>>,
    k: nat,
)
    requires
        one_outcome(run),
        chained(run, all, p, a),
        chained(run, all, q, b),
        p[0] == q[0],
        k <= a.len(),
        k <= b.len(),
    ensures
        p[k as int] == q[k as int],
        joined(a, k) == joined(b, k),
    decreases k,
{
    if k > 0 {
        lemma_one_run(run, all, p, q, a, b, (k - 1) as nat);
        let x = block(all, BLOCK_FRAMES as nat, k - 1);
        assert(ran(run, p[k - 1], x, p[k - 1 + 1], Ok(a[k - 1])));
        assert(ran(run, q[k - 1], x, q[k - 1 + 1], Ok(b[k - 1])));
    }
}

/// What is left is less than a block.
pub proof fn lemma_residue(s: Seq<Binary32>, n: nat)
    requires
        n > 0,
    ensures
        residue(s, n).len() == s.len() % n,
{
    let k = block_count(s, n);
    vstd::arithmetic::div_mod::lemma_fundamental_div_mod(s.len() as int, n as int);
    vstd::arithmetic::mul::lemma_mul_is_commutative(n as int, k as int);
    assert(0 <= k * n <= s.len()) by (nonlinear_arith)
        requires
            s.len() == n * k + s.len() % n,
            s.len() % n >= 0,
    ;
}

/// Cutting a signal into blocks loses nothing and repeats nothing: every sample
/// stands in its block, or in the rest, which is shorter than a block.
pub proof fn law_blocks_and_rest_are_the_signal(s: Seq<Binary32>, n: nat, i: int)
    requires
        n > 0,
        0 <= i < s.len(),
    ensures
        residue(s, n).len() < n,
        block_count(s, n) * n + residue(s, n).len() == s.len(),
        (i / n as int) < block_count(s, n) ==> block(s, n, i / n as int).len() == n && block(
            s,
            n,
            i / n as int,
        )[i % n as int] == s[i],
        (i / n as int) >= block_count(s, n) ==> residue(s, n)[i - block_count(s, n) * n] == s[i],
{
    let k = block_count(s, n);
    lemma_residue(s, n);
    vstd::arithmetic::div_mod::lemma_fundamental_div_mod(s.len() as int, n as int);
    vstd::arithmetic::mul::lemma_mul_is_commutative(n as int, k as int);
    vstd::arithmetic::div_mod::lemma_fundamental_div_mod(i, n as int);
    let q = i / n as int;
    vstd::arithmetic::mul::lemma_mul_is_commutative(n as int, q);
    vstd::arithmetic::div_mod::lemma_div_pos_is_pos(i, n as int);
    if q < k {
        assert(0 <= q * n && q * n + n <= k * n) by (nonlinear_arith)
            requires
                0 <= q,
                q + 1 <= k,
                n > 0,
        ;
    } else {
        assert(k * n <= q * n) by (nonlinear_arith)
            requires
                k <= q,
                n > 0,
        ;
    }
}

/// What comes out is all that the converter gave, in order and nothing else:
/// the replies to some blocks and to those behind them come out one behind the
/// other, and a single reply comes out as it is.
pub proof fn law_replies_come_out_in_order(
    a: Seq<Vec<Binary32>>,
    b: Seq<Vec<Binary32>>,
    x: Vec<Binary32>,
)
    ensures
        joined(a + b, a.len() + b.len()) == joined(a, a.len()) + joined(b, b.len()),
        joined(seq![x], 1) == x@,
        joined(a, 0).len() == 0,
    decreases b.len(),
{
    reveal_with_fuel(joined, 2);
    assert(joined(seq![x], 1) =~= x@);
    if b.len() == 0 {
        assert(a + b =~= a);
        assert(joined(a, a.len()) + joined(b, 0) =~= joined(a, a.len()));
    } else {
        let c = b.drop_last();
        law_replies_come_out_in_order(a, c, x);
        lemma_joined(a + c, a + b, a.len() + c.len());
        lemma_joined(c, b, c.len());
        assert((a + b)[a.len() + b.len() - 1] == b.last());
        assert(joined(a + b, a.len() + b.len()) =~= joined(a, a.len()) + joined(b, b.len()));
    }
}

} // verus!
