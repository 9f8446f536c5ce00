//! Converters that are kept for reuse.
//!
//! Building a converter costs more than a conversion, so each is kept under its
//! rates and its number of frames. A kept converter is reset before it is used
//! again, so that nothing of one conversion reaches another
//! ([`law_kept_converters_answer_like_fresh_ones`]).

use crate::binary32::Binary32;
use vstd::prelude::*;

verus! {

/// A converter under what it was built for.
#[derive(Debug)]
pub struct Kept<C> {
    pub from: u32,
    pub to: u32,
    pub frames: usize,
    pub converter: C,
}

/// The converters that are kept.
#[derive(Debug)]
pub struct Converters<C> {
    kept: Vec<Kept<C>>,
}

/// What a converter is built for: its rates and its number of frames.
pub type Key = (u32, u32, usize);

impl<C> Kept<C> {
    pub open spec fn key(self) -> Key {
        (self.from, self.to, self.frames)
    }
}

impl<C> View for Converters<C> {
    type V = Seq<Kept<C>>;

    closed spec fn view(&self) -> Seq<Kept<C>> {
        self.kept@
    }
}

/// No two converters are kept under the same key.
pub open spec fn distinct<C>(s: Seq<Kept<C>>) -> bool {
    forall|i: int, j: int|
        0 <= i < j < s.len() ==> (#[trigger] s[i]).key() != (#[trigger] s[j]).key()
}

/// A converter is kept under the key.
pub open spec fn keeps<C>(s: Seq<Kept<C>>, key: Key) -> bool {
    exists|i: int| 0 <= i < s.len() && (#[trigger] s[i]).key() == key
}

/// `run` may make of `c` and `audio` the converter `d` and the reply `r`.
pub open spec fn ran<C, X: Fn(C, &[Binary32]) -> (C, Result<Vec<Binary32>, String>)>(
    run: X,
    c: C,
    audio: Seq<Binary32>,
    d: C,
    r: Result<Vec<Binary32>, String>,
) -> bool {
    exists|a: &[Binary32]| a@ == audio && #[trigger] run.ensures((c, a), (d, r))
}

/// What was answered while a block was converted.
pub struct ConvertReplies<C> {
    /// What building came to, where nothing was kept.
    pub built: Result<C, String>,
    /// The converter before and after its run.
    pub ready: C,
    pub used: C,
}

/// Converting `audio` with the converters `before` may give `r` and leave
/// `after`: a kept converter is reset, another is built, and the one that ran is
/// kept. Where building fails nothing is kept.
pub open spec fn converts<C, B, R, X>(
    build: B,
    reset: R,
    run: X,
    before: Seq<Kept<C>>,
    audio: Seq<Binary32>,
    key: Key,
    t: ConvertReplies<C>,
    r: Result<Vec<Binary32>, String>,
    after: Seq<Kept<C>>,
) -> bool where
    B: Fn(u32, u32, usize) -> Result<C, String>,
    R: Fn(C) -> C,
    X: Fn(C, &[Binary32]) -> (C, Result<Vec<Binary32>, String>),
 {
    let used = Kept { from: key.0, to: key.1, frames: key.2, converter: t.used };
    if keeps(before, key) {
        exists|i: int|
            0 <= i < before.len() && (#[trigger] before[i]).key() == key && reset.ensures(
                (before[i].converter,),
                t.ready,
            ) && ran(run, t.ready, audio, t.used, r) && after == before.remove(i).push(used)
    } else {
        &&& build.ensures(key, t.built)
        &&& match t.built {
            Err(e) => r == Err::<Vec<Binary32>, String>(e) && after == before,
            Ok(c) => t.ready == c && ran(run, t.ready, audio, t.used, r) && after == before.push(
                used,
            ),
        }
    }
}

impl<C> Converters<C> {
    /// Nothing is kept yet.
    pub fn new() -> (r: Self)
        ensures
            r@ == Seq::<Kept<C>>::empty(),
            distinct(r@),
    {
        Converters { kept: Vec::new() }
    }

    /// Converts one block from one rate to another, as a fresh converter would.
    pub fn convert<B, R, X>(
        &mut self,
        audio: &[Binary32],
        from: u32,
        to: u32,
        build: &B,
        reset: &R,
        run: &X,
    ) -> (r: Result<Vec<Binary32>, String>) where
        B: Fn(u32, u32, usize) -> Result<C, String>,
        R: Fn(C) -> C,
        X: Fn(C, &[Binary32]) -> (C, Result<Vec<Binary32>, String>),

        requires
            distinct(old(self)@),
            forall|f: u32, t: u32, n: usize| build.requires((f, t, n)),
            forall|c: C| reset.requires((c,)),
            forall|c: C, a: &[Binary32]| run.requires((c, a)),
        ensures
            distinct(final(self)@),
            exists|t: ConvertReplies<C>| #[trigger]
                converts(
                    *build,
                    *reset,
                    *run,
                    old(self)@,
                    audio@,
                    (from, to, audio@.len() as usize),
                    t,
                    r,
                    final(self)@,
                ),
    {
        let frames: usize = audio.len();
        let ghost before = self@;
        let ghost key: Key = (from, to, frames);
        let ghost mut t: ConvertReplies<C> = arbitrary();
        let mut i: usize = 0;
        while i < self.kept.len()
            invariant
                self.kept@ == before,
                i <= before.len(),
                key == (from, to, frames),
                forall|j: int| 0 <= j < i ==> (#[trigger] before[j]).key() != key,
            ensures
                self.kept@ == before,
                i <= before.len(),
                i < before.len() ==> before[i as int].key() == key,
                i == before.len() ==> !keeps(before, key),
            decreases before.len() - i,
        {
            let k: &Kept<C> = &self.kept[i];
            if k.from == from && k.to == to && k.frames == frames {
                break ;
            }
            i = i + 1;
        }
        let ghost found = i < before.len();
        let ready: C = if i < self.kept.len() {
            let old: Kept<C> = self.kept.remove(i);
            reset(old.converter)
        } else {
            match build(from, to, frames) {
                Ok(c) => {
                    proof {
                        t.built = Ok(c);
                    }
                    c
                },
                Err(e) => {
                    let r: Result<Vec<Binary32>, String> = Err(e);
                    proof {
                        t.built = Err(r->Err_0);
                        assert(converts(
                            *build,
                            *reset,
                            *run,
                            before,
                            audio@,
                            key,
                            t,
                            r,
                            self@,
                        ));
                    }
                    return r;
                },
            }
        };
        proof {
            t.ready = ready;
        }
        let (used, r) = run(ready, audio);
        proof {
            t.used = used;
            assert(run.ensures((t.ready, audio), (used, r)));
        }
        self.kept.push(Kept { from, to, frames, converter: used });
        proof {
            if found {
                assert(before[i as int].key() == key);
                assert(keeps(before, key));
            }
            assert(converts(*build, *reset, *run, before, audio@, key, t, r, self@));
            lemma_distinct(*build, *reset, *run, before, audio@, key, t, r, self@);
        }
        r
    }
}

proof fn lemma_distinct<C, B, R, X>(
    build: B,
    reset: R,
    run: X,
    before: Seq<Kept<C>>,
    audio: Seq<Binary32>,
    key: Key,
    t: ConvertReplies<C>,
    r: Result<Vec<Binary32>, String>,
    after: Seq<Kept<C>>,
) where
    B: Fn(u32, u32, usize) -> Result<C, String>,
    R: Fn(C) -> C,
    X: Fn(C, &[Binary32]) -> (C, Result<Vec<Binary32>, String>),

    requires
        distinct(before),
        converts(build, reset, run, before, audio, key, t, r, after),
    ensures
        distinct(after),
{
    if keeps(before, key) {
        let i = choose|i: int|
            0 <= i < before.len() && (#[trigger] before[i]).key() == key && reset.ensures(
                (before[i].converter,),
                t.ready,
            ) && ran(run, t.ready, audio, t.used, r) && after == before.remove(i).push(
                Kept { from: key.0, to: key.1, frames: key.2, converter: t.used },
            );
        let rest = before.remove(i);
        assert forall|a: int, b: int| 0 <= a < b < after.len() implies (#[trigger] after[a]).key()
            != (#[trigger] after[b]).key() by {
            let x = if a < i {
                a
            } else {
                a + 1
            };
            assert(after[a] == before[x]);
            if b < rest.len() {
                let y = if b < i {
                    b
                } else {
                    b + 1
                };
                assert(after[b] == before[y]);
            } else {
                assert(before[x].key() != before[i].key());
            }
        }
    }
}

/// What is known of a kind of converter: how one that was built, or used and
/// reset, answers.
#[verifier::reject_recursive_types(C)]
pub struct Behaviour<C> {
    /// A converter that is as it was when it was built for the key.
    pub fresh: spec_fn(Key, C) -> bool,
    /// A converter that was built for the key and may have been used.
    pub own: spec_fn(Key, C) -> bool,
    /// What a fresh converter for the key answers.
    pub answer: spec_fn(Key, Seq<Binary32>, Result<Vec<Binary32>, String>) -> bool,
}

/// The three operations behave so: a built converter is fresh, a fresh one
/// gives its answer, and resetting makes a used one fresh again.
pub open spec fn behaves<C, B, R, X>(build: B, reset: R, run: X, b: Behaviour<C>) -> bool where
    B: Fn(u32, u32, usize) -> Result<C, String>,
    R: Fn(C) -> C,
    X: Fn(C, &[Binary32]) -> (C, Result<Vec<Binary32>, String>),
 {
    &&& forall|key: Key, c: C| #[trigger] build.ensures(key, Ok(c)) ==> (b.fresh)(key, c)
    &&& forall|key: Key, c: C, audio: Seq<Binary32>, d: C, r: Result<Vec<Binary32>, String>|
        (b.fresh)(key, c) && #[trigger] ran(run, c, audio, d, r) ==> #[trigger] (b.own)(key, d)
            && (b.answer)(key, audio, r)
    &&& forall|key: Key, c: C, d: C| #[trigger]
        (b.own)(key, c) && #[trigger] reset.ensures((c,), d) ==> (b.fresh)(key, d)
}

/// Every kept converter is one that was built for its key.
pub open spec fn all_own<C>(s: Seq<Kept<C>>, b: Behaviour<C>) -> bool {
    forall|i: int| 0 <= i < s.len() ==> (b.own)((#[trigger] s[i]).key(), s[i].converter)
}

/// One conversion of a history: what was asked, what came back, and what was
/// kept after it.
pub struct Conversion<C> {
    pub audio: Seq<Binary32>,
    pub key: Key,
    pub t: ConvertReplies<C>,
    pub r: Result<Vec<Binary32>, String>,
    pub after: Seq<Kept<C>>,
}

/// The converters that are kept after the first `n` conversions.
pub open spec fn kept_after<C>(history: Seq<Conversion<C>>, n: int) -> Seq<Kept<C>> {
    if n <= 0 {
        Seq::empty()
    } else {
        history[n - 1].after
    }
}

/// The conversions followed one another, with nothing kept at the start.
pub open spec fn is_history<C, B, R, X>(
    build: B,
    reset: R,
    run: X,
    history: Seq<Conversion<C>>,
) -> bool where
    B: Fn(u32, u32, usize) -> Result<C, String>,
    R: Fn(C) -> C,
    X: Fn(C, &[Binary32]) -> (C, Result<Vec<Binary32>, String>),
 {
    forall|k: int|
        0 <= k < history.len() ==> {
            let c = #[trigger] history[k];
            converts(
                build,
                reset,
                run,
                kept_after(history, k),
                c.audio,
                c.key,
                c.t,
                c.r,
                c.after,
            )
        }
}

/// Whatever was converted before, a conversion answers as a freshly built
/// converter does, unless a converter had to be built and could not be. Two
/// conversions with the same arguments therefore return the same, wherever a
/// fresh converter has only one answer.
pub proof fn law_kept_converters_answer_like_fresh_ones<C, B, R, X>(
    build: B,
    reset: R,
    run: X,
    b: Behaviour<C>,
    history: Seq<Conversion<C>>,
    k: int,
) where
    B: Fn(u32, u32, usize) -> Result<C, String>,
    R: Fn(C) -> C,
    X: Fn(C, &[Binary32]) -> (C, Result<Vec<Binary32>, String>),

    requires
        behaves(build, reset, run, b),
        is_history(build, reset, run, history),
        0 <= k < history.len(),
    ensures
        ({
            let c = history[k];
            ||| (b.answer)(c.key, c.audio, c.r)
            ||| exists|e: String| #[trigger]
                build.ensures(c.key, Err(e)) && c.r == Err::<Vec<Binary32>, String>(e)
        }),
{
    lemma_own(build, reset, run, b, history, k);
    let c = history[k];
    let before = kept_after(history, k);
    if keeps(before, c.key) {
        let i = choose|i: int|
            0 <= i < before.len() && (#[trigger] before[i]).key() == c.key && reset.ensures(
                (before[i].converter,),
                c.t.ready,
            ) && ran(run, c.t.ready, c.audio, c.t.used, c.r) && c.after == before.remove(i).push(
                Kept { from: c.key.0, to: c.key.1, frames: c.key.2, converter: c.t.used },
            );
        assert((b.own)(before[i].key(), before[i].converter));
        assert((b.fresh)(c.key, c.t.ready));
        assert((b.own)(c.key, c.t.used));
    } else if c.t.built is Ok {
        assert(build.ensures(c.key, Ok(c.t.ready)));
        assert((b.own)(c.key, c.t.used));
    } else {
        assert(build.ensures(c.key, Err(c.t.built->Err_0)));
    }
}

/// Only converters that were built for their keys are ever kept.
proof fn lemma_own<C, B, R, X>(
    build: B,
    reset: R,
    run: X,
    b: Behaviour<C>,
    history: Seq<Conversion<C>>,
    n: int,
) where
    B: Fn(u32, u32, usize) -> Result<C, String>,
    R: Fn(C) -> C,
    X: Fn(C, &[Binary32]) -> (C, Result<Vec<Binary32>, String>),

    requires
        behaves(build, reset, run, b),
        is_history(build, reset, run, history),
        0 <= n <= history.len(),
    ensures
        all_own(kept_after(history, n), b),
    decreases n,
{
    if n > 0 {
        lemma_own(build, reset, run, b, history, n - 1);
        let c = history[n - 1];
        let before = kept_after(history, n - 1);
        if keeps(before, c.key) {
            let i = choose|i: int|
                0 <= i < before.len() && (#[trigger] before[i]).key() == c.key && reset.ensures(
                    (before[i].converter,),
                    c.t.ready,
                ) && ran(run, c.t.ready, c.audio, c.t.used, c.r) && c.after == before.remove(
                    i,
                ).push(
                    Kept { from: c.key.0, to: c.key.1, frames: c.key.2, converter: c.t.used },
                );
            assert((b.own)(before[i].key(), before[i].converter));
            assert((b.fresh)(c.key, c.t.ready));
            assert((b.own)(c.key, c.t.used));
            assert forall|j: int| 0 <= j < c.after.len() implies (b.own)(
                (#[trigger] c.after[j]).key(),
                c.after[j].converter,
            ) by {
                if j < before.len() - 1 {
                    let x = if j < i {
                        j
                    } else {
                        j + 1
                    };
                    assert(c.after[j] == before[x]);
                }
            }
        } else if c.t.built is Ok {
            assert(build.ensures(c.key, Ok(c.t.ready)));
            assert((b.own)(c.key, c.t.used));
            assert forall|j: int| 0 <= j < c.after.len() implies (b.own)(
                (#[trigger] c.after[j]).key(),
                c.after[j].converter,
            ) by {
                if j < before.len() {
                    assert(c.after[j] == before[j]);
                }
            }
        }
    }
}

} // verus!
