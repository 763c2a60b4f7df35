use vstd::arithmetic::div_mod::{lemma_fundamental_div_mod, lemma_mod_multiples_basic};
use vstd::prelude::*;

verus! {

/// End (one past the last byte) of a free run `(start, length)`.
pub open spec fn run_end(r: (usize, usize)) -> int {
    r.0 as int + r.1 as int
}

/// Address `x` lies inside the run `r`.
pub open spec fn in_run(r: (usize, usize), x: int) -> bool {
    r.0 <= x < run_end(r)
}

/// Address `x` lies inside the range of `n` bytes starting at `p`.
pub open spec fn in_span(p: int, n: int, x: int) -> bool {
    p <= x < p + n
}

/// Address `x` is free: some run of `runs` holds it.
pub open spec fn free_at(runs: Seq<(usize, usize)>, x: int) -> bool {
    exists|k: int| 0 <= k < runs.len() && #[trigger] in_run(runs[k], x)
}

/// Runs are non-empty, inside `[lo, hi)`, never at address zero, sorted by
/// address and separated by at least one used byte: adjacent free runs
/// never stand side by side, they are always merged into one.
pub open spec fn runs_wf(runs: Seq<(usize, usize)>, lo: int, hi: int) -> bool {
    &&& forall|k: int|
        0 <= k < runs.len() ==> {
            &&& (#[trigger] runs[k]).1 > 0
            &&& runs[k].0 > 0
            &&& lo <= runs[k].0
            &&& run_end(runs[k]) <= hi
        }
    &&& forall|k: int, l: int| 0 <= k < l < runs.len() ==> run_end(#[trigger] runs[k]) < (#[trigger] runs[l]).0
}

/// Bytes to skip from `start` to reach a multiple of `align`.
#[verifier::opaque]
pub open spec fn padding(start: nat, align: nat) -> nat {
    if start % align == 0 {
        0
    } else {
        (align - start % align) as nat
    }
}

/// Bytes that a request of `size` bytes takes: a zero-size request still
/// takes one byte, so that every granted address is distinct.
pub open spec fn run_len(size: nat) -> nat {
    if size == 0 {
        1
    } else {
        size
    }
}

/// A request of `n` bytes aligned to `align` fits inside run `r`.
pub open spec fn run_fits(r: (usize, usize), n: nat, align: nat) -> bool {
    padding(r.0 as nat, align) + n <= r.1
}

/// Index of the first run from index `i` on that fits the request, if any.
pub open spec fn first_fit_from(runs: Seq<(usize, usize)>, n: nat, align: nat, i: nat) -> Option<int>
    decreases runs.len() - i,
{
    if i >= runs.len() {
        None
    } else if run_fits(runs[i as int], n, align) {
        Some(i as int)
    } else {
        first_fit_from(runs, n, align, i + 1)
    }
}

/// Index of the first run that fits the request, if any.
pub open spec fn first_fit(runs: Seq<(usize, usize)>, n: nat, align: nat) -> Option<int> {
    first_fit_from(runs, n, align, 0)
}

/// The search from `i` finds the first fitting run at or after `i`.
pub proof fn lemma_first_fit_from(runs: Seq<(usize, usize)>, n: nat, align: nat, i: nat)
    ensures
        match first_fit_from(runs, n, align, i) {
            Some(k) => i <= k < runs.len() && run_fits(runs[k], n, align) && forall|j: int|
                i <= j < k ==> !run_fits(#[trigger] runs[j], n, align),
            None => forall|j: int| i <= j < runs.len() ==> !run_fits(#[trigger] runs[j], n, align),
        },
    decreases runs.len() - i,
{
    if i < runs.len() && !run_fits(runs[i as int], n, align) {
        lemma_first_fit_from(runs, n, align, i + 1);
    }
}

/// What is left of run `r` in front of address `p`.
pub open spec fn front_part(r: (usize, usize), p: int) -> Seq<(usize, usize)> {
    if p > r.0 {
        seq![(r.0, (p - r.0) as usize)]
    } else {
        seq![]
    }
}

/// What is left of run `r` from address `q` on.
pub open spec fn back_part(r: (usize, usize), q: int) -> Seq<(usize, usize)> {
    if q < run_end(r) {
        seq![(q as usize, (run_end(r) - q) as usize)]
    } else {
        seq![]
    }
}

/// Runs after `n` bytes at `p` were taken out of run `i`.
pub open spec fn carve(runs: Seq<(usize, usize)>, i: int, p: int, n: int) -> Seq<(usize, usize)> {
    runs.subrange(0, i) + front_part(runs[i], p) + back_part(runs[i], p + n) + runs.subrange(
        i + 1,
        runs.len() as int,
    )
}

/// Address that first-fit grants for `n` bytes aligned to `align`, or `0`.
pub open spec fn first_fit_addr(runs: Seq<(usize, usize)>, n: nat, align: nat) -> int {
    match first_fit(runs, n, align) {
        None => 0,
        Some(i) => runs[i].0 + padding(runs[i].0 as nat, align),
    }
}

/// Runs left after first-fit granted `n` bytes aligned to `align`.
pub open spec fn first_fit_runs(runs: Seq<(usize, usize)>, n: nat, align: nat) -> Seq<(usize, usize)> {
    match first_fit(runs, n, align) {
        None => runs,
        Some(i) => carve(runs, i, first_fit_addr(runs, n, align), n as int),
    }
}

/// First-fit grants address `0` exactly when no run fits, and then leaves
/// the runs as they are; no run shorter than the request fits.
pub proof fn lemma_first_fit_fails(runs: Seq<(usize, usize)>, n: nat, align: nat)
    requires
        forall|k: int| 0 <= k < runs.len() ==> (#[trigger] runs[k]).0 > 0,
    ensures
        first_fit_addr(runs, n, align) == 0 <==> first_fit(runs, n, align) is None,
        first_fit(runs, n, align) is None ==> first_fit_runs(runs, n, align) == runs,
        (forall|k: int| 0 <= k < runs.len() ==> (#[trigger] runs[k]).1 < n) ==> first_fit(
            runs,
            n,
            align,
        ) is None,
{
    lemma_first_fit_from(runs, n, align, 0);
    if first_fit(runs, n, align) is Some {
        let i = first_fit(runs, n, align)->Some_0;
        assert(runs[i].0 > 0);
    }
}

/// A free stretch of `m` bytes lies inside a single run: runs never touch,
/// so a stretch reaching from one run into the next would hold a used byte.
pub proof fn lemma_free_stretch_in_one_run(runs: Seq<(usize, usize)>, lo: int, hi: int, a: int, m: int)
    requires
        runs_wf(runs, lo, hi),
        m > 0,
        forall|x: int| #[trigger] in_span(a, m, x) ==> free_at(runs, x),
    ensures
        exists|k: int| 0 <= k < runs.len() && runs[k].0 <= a && a + m <= run_end(#[trigger] runs[k]),
{
    assert(in_span(a, m, a));
    let k = choose|k: int| 0 <= k < runs.len() && #[trigger] in_run(runs[k], a);
    if run_end(runs[k]) < a + m {
        let e = run_end(runs[k]);
        assert(in_span(a, m, e));
        let l = choose|l: int| 0 <= l < runs.len() && #[trigger] in_run(runs[l], e);
        if l < k {
            assert(run_end(runs[l]) < runs[k].0);
        } else if l > k {
            assert(run_end(runs[k]) < runs[l].0);
        }
    }
    assert(runs[k].0 <= a && a + m <= run_end(runs[k]));
}

/// Coalescing: when `size1` bytes at `p` and then the `size2` bytes right
/// after them are given back, they end up in one run, so a single request
/// for `size1 + size2` bytes then finds a run that holds it.
pub proof fn lemma_adjacent_releases_merge(
    f0: FallbackAllocator,
    f1: FallbackAllocator,
    f2: FallbackAllocator,
    p: usize,
    size1: usize,
    size2: usize,
)
    requires
        f0.wf(),
        f1.wf(),
        f2.wf(),
        size1 > 0,
        size2 > 0,
        forall|x: int|
            #[trigger] f1.is_free(x) <==> (f0.is_free(x) || in_span(p as int, run_len(size1 as nat) as int, x)),
        forall|x: int|
            #[trigger] f2.is_free(x) <==> (f1.is_free(x) || in_span(
                p + size1,
                run_len(size2 as nat) as int,
                x,
            )),
    ensures
        first_fit(f2.runs@, (size1 + size2) as nat, 1) is Some,
        first_fit_addr(f2.runs@, (size1 + size2) as nat, 1) != 0,
{
    let runs = f2.runs@;
    let m = size1 + size2;
    assert forall|x: int| #[trigger] in_span(p as int, m, x) implies free_at(runs, x) by {
        assert(f1.is_free(x) || in_span(p + size1, run_len(size2 as nat) as int, x));
        assert(f2.is_free(x));
    }
    lemma_free_stretch_in_one_run(runs, f2.lo as int, f2.hi as int, p as int, m);
    let k = choose|k: int| 0 <= k < runs.len() && runs[k].0 <= p && p + m <= run_end(#[trigger] runs[k]);
    reveal(padding);
    assert(padding(runs[k].0 as nat, 1) == 0);
    assert(run_fits(runs[k], m as nat, 1));
    lemma_first_fit_from(runs, m as nat, 1, 0);
    lemma_first_fit_fails(runs, m as nat, 1);
}

/// Skipping `padding(start, align)` bytes from `start` reaches a multiple of `align`.
pub proof fn lemma_padding_aligns(start: nat, align: nat)
    requires
        align > 0,
    ensures
        (start + padding(start, align)) % align == 0,
        padding(start, align) < align,
{
    reveal(padding);
    let q = start as int / align as int;
    lemma_fundamental_div_mod(start as int, align as int);
    if start % align != 0 {
        assert(start + padding(start, align) == (q + 1) * align) by (nonlinear_arith)
            requires
                start == align * q + start % align,
                padding(start, align) == align - start % align,
        ;
        lemma_mod_multiples_basic(q + 1, align as int);
    }
}

/// Taking a span out of one run keeps the runs well formed, and frees
/// exactly what was free before minus the span.
pub proof fn lemma_carve(runs: Seq<(usize, usize)>, lo: int, hi: int, i: int, p: int, n: int)
    requires
        runs_wf(runs, lo, hi),
        hi <= usize::MAX,
        0 <= i < runs.len(),
        runs[i].0 <= p,
        p + n <= run_end(runs[i]),
        n > 0,
    ensures
        runs_wf(carve(runs, i, p, n), lo, hi),
        forall|x: int|
            #[trigger] free_at(carve(runs, i, p, n), x) <==> (free_at(runs, x) && !in_span(p, n, x)),
{
    let c = carve(runs, i, p, n);
    let r = runs[i];
    let f = front_part(r, p);
    let b = back_part(r, p + n);
    let fl = f.len() as int;
    let bl = b.len() as int;
    let len = runs.len() as int;
    assert(c.len() == len - 1 + fl + bl);
    assert forall|k: int| 0 <= k < i implies c[k] == runs[k] by {}
    assert forall|k: int| i + fl + bl <= k < c.len() implies c[k] == runs[k - fl - bl + 1] by {}
    assert forall|k: int| i <= k < i + fl + bl implies {
        &&& r.0 <= c[k].0
        &&& run_end(c[k]) <= run_end(r)
        &&& c[k].1 > 0
        &&& !(c[k].0 < p + n && p < run_end(c[k]))
    } by {
        if fl == 1 && k == i {
            assert(c[k] == f[0]);
        } else {
            assert(k == i + fl);
            assert(bl == 1);
            assert(c[k] == b[0]);
        }
    }
    if fl == 1 && bl == 1 {
        assert(c[i] == f[0]);
        assert(c[i + 1] == b[0]);
    }
    assert forall|k: int, l: int| 0 <= k < l < c.len() implies run_end(#[trigger] c[k]) < (
    #[trigger] c[l]).0 by {
        if k < i {
            if l < i + fl + bl {
                assert(run_end(runs[k]) < runs[i].0);
            } else {
                assert(run_end(runs[k]) < runs[l - fl - bl + 1].0);
            }
        } else if k < i + fl + bl {
            if l < i + fl + bl {
            } else {
                assert(run_end(runs[i]) < runs[l - fl - bl + 1].0);
            }
        } else {
            assert(run_end(runs[k - fl - bl + 1]) < runs[l - fl - bl + 1].0);
        }
    }
    assert forall|x: int| #[trigger] free_at(c, x) <==> (free_at(runs, x) && !in_span(p, n, x)) by {
        if free_at(c, x) {
            let k = choose|k: int| 0 <= k < c.len() && #[trigger] in_run(c[k], x);
            if k < i {
                assert(in_run(runs[k], x));
                assert(run_end(runs[k]) < runs[i].0);
            } else if k < i + fl + bl {
                assert(in_run(runs[i], x));
            } else {
                assert(in_run(runs[k - fl - bl + 1], x));
                assert(run_end(runs[i]) < runs[k - fl - bl + 1].0);
            }
        }
        if free_at(runs, x) && !in_span(p, n, x) {
            let m = choose|m: int| 0 <= m < runs.len() && #[trigger] in_run(runs[m], x);
            if m < i {
                assert(in_run(c[m], x));
            } else if m == i {
                if x < p {
                    assert(in_run(c[i], x));
                } else {
                    assert(in_run(c[i + fl], x));
                }
            } else {
                assert(in_run(c[m + fl + bl - 1], x));
            }
        }
    }
}

/// Runs after the span `[ms, me)` replaced the runs `a .. b`.
pub open spec fn splice(runs: Seq<(usize, usize)>, a: int, b: int, ms: int, me: int) -> Seq<
    (usize, usize),
> {
    runs.subrange(0, a) + seq![(ms as usize, (me - ms) as usize)] + runs.subrange(b, runs.len() as int)
}

/// Giving back a free span merges it with the runs that touch it: the
/// result is well formed and frees the span on top of what was free.
pub proof fn lemma_splice(
    runs: Seq<(usize, usize)>,
    lo: int,
    hi: int,
    idx: int,
    p: int,
    n: int,
    a: int,
    b: int,
    ms: int,
    me: int,
)
    requires
        runs_wf(runs, lo, hi),
        hi <= usize::MAX,
        0 < p,
        lo <= p,
        p + n <= hi,
        n > 0,
        0 <= idx <= runs.len(),
        forall|j: int| 0 <= j < idx ==> run_end(#[trigger] runs[j]) <= p,
        idx < runs.len() ==> runs[idx].0 >= p + n,
        a == if idx > 0 && run_end(runs[idx - 1]) == p {
            idx - 1
        } else {
            idx
        },
        ms == if idx > 0 && run_end(runs[idx - 1]) == p {
            runs[idx - 1].0 as int
        } else {
            p
        },
        b == if idx < runs.len() && runs[idx].0 == p + n {
            idx + 1
        } else {
            idx
        },
        me == if idx < runs.len() && runs[idx].0 == p + n {
            run_end(runs[idx])
        } else {
            p + n
        },
    ensures
        runs_wf(splice(runs, a, b, ms, me), lo, hi),
        forall|x: int|
            #[trigger] free_at(splice(runs, a, b, ms, me), x) <==> (free_at(runs, x) || in_span(
                p,
                n,
                x,
            )),
{
    let c = splice(runs, a, b, ms, me);
    let len = runs.len() as int;
    let m = (ms as usize, (me - ms) as usize);
    assert(c.len() == a + 1 + len - b);
    assert(c[a] == m);
    assert forall|k: int| 0 <= k < a implies c[k] == runs[k] by {}
    assert forall|k: int| a < k < c.len() implies c[k] == runs[k - a - 1 + b] by {}
    assert forall|k: int| 0 <= k < a implies run_end(#[trigger] runs[k]) < ms by {
        if a == idx - 1 {
            assert(run_end(runs[k]) < runs[idx - 1].0);
        } else if k < idx - 1 {
            assert(run_end(runs[k]) < runs[idx - 1].0);
        }
    }
    assert forall|l: int| b <= l < len implies me < (#[trigger] runs[l]).0 by {
        if b == idx + 1 {
            assert(run_end(runs[idx]) < runs[l].0);
        } else if l > idx {
            assert(run_end(runs[idx]) < runs[l].0);
        }
    }
    assert forall|k: int, l: int| 0 <= k < l < c.len() implies run_end(#[trigger] c[k]) < (
    #[trigger] c[l]).0 by {
        if k < a {
            if l > a {
                assert(run_end(runs[k]) < ms);
                assert(me < runs[l - a - 1 + b].0);
            }
        } else if k > a {
            assert(run_end(runs[k - a - 1 + b]) < runs[l - a - 1 + b].0);
        }
    }
    assert forall|x: int| #[trigger] free_at(c, x) <==> (free_at(runs, x) || in_span(p, n, x)) by {
        if free_at(c, x) {
            let k = choose|k: int| 0 <= k < c.len() && #[trigger] in_run(c[k], x);
            if k < a {
                assert(in_run(runs[k], x));
            } else if k == a {
                if x < p {
                    assert(in_run(runs[idx - 1], x));
                } else if x >= p + n {
                    assert(in_run(runs[idx], x));
                }
            } else {
                assert(in_run(runs[k - a - 1 + b], x));
            }
        }
        if in_span(p, n, x) {
            assert(in_run(c[a], x));
        }
        if free_at(runs, x) {
            let j = choose|j: int| 0 <= j < runs.len() && #[trigger] in_run(runs[j], x);
            if j < a {
                assert(in_run(c[j], x));
            } else if j < b {
                assert(in_run(c[a], x));
            } else {
                assert(in_run(c[j + a + 1 - b], x));
            }
        }
    }
}

/// Appends `runs[from .. to]` to `out`.
fn copy_runs(out: &mut Vec<(usize, usize)>, runs: &Vec<(usize, usize)>, from: usize, to: usize)
    requires
        from <= to <= runs@.len(),
    ensures
        final(out)@ == old(out)@ + runs@.subrange(from as int, to as int),
{
    let mut k: usize = from;
    while k < to
        invariant
            from <= k <= to <= runs@.len(),
            out@ == old(out)@ + runs@.subrange(from as int, k as int),
        decreases to - k,
    {
        out.push(runs[k]);
        proof {
            assert(runs@.subrange(from as int, k + 1) == runs@.subrange(from as int, k as int).push(
                runs@[k as int],
            ));
        }
        k = k + 1;
    }
}

/// Index of the first run that does not start below `p`.
fn insert_pos(runs: &Vec<(usize, usize)>, p: usize) -> (idx: usize)
    ensures
        idx <= runs@.len(),
        forall|j: int| 0 <= j < idx ==> (#[trigger] runs@[j]).0 < p,
        idx < runs@.len() ==> runs@[idx as int].0 >= p,
{
    let mut idx: usize = 0;
    while idx < runs.len() && runs[idx].0 < p
        invariant
            idx <= runs@.len(),
            forall|j: int| 0 <= j < idx ==> (#[trigger] runs@[j]).0 < p,
        decreases runs@.len() - idx,
    {
        idx = idx + 1;
    }
    idx
}

/// A general first-fit allocator over the address window `[lo, hi)`.
/// It keeps the free part of the window as a sorted list of runs.
pub struct FallbackAllocator {
    pub runs: Vec<(usize, usize)>,
    pub lo: usize,
    pub hi: usize,
}

impl FallbackAllocator {
    pub open spec fn wf(&self) -> bool {
        &&& self.lo <= self.hi
        &&& runs_wf(self.runs@, self.lo as int, self.hi as int)
    }

    pub open spec fn is_free(&self, x: int) -> bool {
        free_at(self.runs@, x)
    }

    /// An allocator that owns no memory yet.
    pub fn empty() -> (r: Self)
        ensures
            r.wf(),
            r.runs@ == Seq::<(usize, usize)>::empty(),
            r.lo == 0,
            r.hi == 0,
    {
        FallbackAllocator { runs: Vec::new(), lo: 0, hi: 0 }
    }

    /// An allocator that owns the window `[heap_start, heap_start + heap_size)`,
    /// all of it free.
    pub fn new(heap_start: usize, heap_size: usize) -> (r: Self)
        requires
            heap_start > 0,
            heap_start + heap_size <= usize::MAX,
        ensures
            r.wf(),
            r.lo == heap_start,
            r.hi == heap_start + heap_size,
            heap_size > 0 ==> r.runs@ == seq![(heap_start, heap_size)],
            heap_size == 0 ==> r.runs@ == Seq::<(usize, usize)>::empty(),
            forall|x: int| #[trigger] r.is_free(x) <==> in_span(heap_start as int, heap_size as int, x),
    {
        let mut runs: Vec<(usize, usize)> = Vec::new();
        if heap_size > 0 {
            runs.push((heap_start, heap_size));
        }
        let r = FallbackAllocator { runs, lo: heap_start, hi: heap_start + heap_size };
        proof {
            assert forall|x: int| #[trigger] r.is_free(x) <==> in_span(heap_start as int, heap_size as int, x) by {
                if in_span(heap_start as int, heap_size as int, x) {
                    assert(in_run(r.runs@[0], x));
                }
            }
        }
        r
    }
    /// First-fit allocation of `size` bytes aligned to `align`: the first
    /// run that can hold the request is split, and what is left of it
    /// before and after the granted span stays free. Returns `0` when no
    /// run can hold the request.
    #[verifier::loop_isolation(false)]
    pub fn allocate(&mut self, size: usize, align: usize) -> (r: usize)
        requires
            old(self).wf(),
            align > 0,
        ensures
            final(self).wf(),
            final(self).lo == old(self).lo,
            final(self).hi == old(self).hi,
            r as int == first_fit_addr(old(self).runs@, run_len(size as nat), align as nat),
            final(self).runs@ == first_fit_runs(old(self).runs@, run_len(size as nat), align as nat),
            r == 0 <==> first_fit(old(self).runs@, run_len(size as nat), align as nat) is None,
            r != 0 ==> r % align == 0,
            r != 0 ==> forall|x: int|
                in_span(r as int, run_len(size as nat) as int, x) ==> old(self).is_free(x),
            forall|x: int|
                #[trigger] final(self).is_free(x) <==> (old(self).is_free(x) && !(r != 0
                    && in_span(r as int, run_len(size as nat) as int, x))),
    {
        let n: usize = if size == 0 {
            1
        } else {
            size
        };
        let len = self.runs.len();
        let mut i: usize = 0;
        while i < len
            invariant
                i <= len,
                len == self.runs@.len(),
                *self == *old(self),
                forall|j: int| 0 <= j < i ==> !run_fits(#[trigger] self.runs@[j], n as nat, align as nat),
            decreases len - i,
        {
            let (start, rlen) = self.runs[i];
            let rem = start % align;
            let pad: usize = if rem == 0 {
                0
            } else {
                align - rem
            };
            proof {
                reveal(padding);
                assert(pad as nat == padding(start as nat, align as nat));
            }
            if pad <= rlen && n <= rlen - pad {
                let p = start + pad;
                let ghost runs = self.runs@;
                proof {
                    assert(run_fits(runs[i as int], n as nat, align as nat));
                    lemma_first_fit_from(runs, n as nat, align as nat, 0);
                    assert(first_fit(runs, n as nat, align as nat) == Some(i as int));
                    lemma_padding_aligns(start as nat, align as nat);
                    lemma_carve(runs, self.lo as int, self.hi as int, i as int, p as int, n as int);
                }
                let mut out: Vec<(usize, usize)> = Vec::new();
                copy_runs(&mut out, &self.runs, 0, i);
                if pad > 0 {
                    out.push((start, pad));
                }
                let q = p + n;
                if q < start + rlen {
                    out.push((q, start + rlen - q));
                }
                copy_runs(&mut out, &self.runs, i + 1, len);
                proof {
                    assert(out@ == carve(runs, i as int, p as int, n as int));
                    assert forall|x: int| in_span(p as int, n as int, x) implies free_at(runs, x) by {
                        assert(in_run(runs[i as int], x));
                    }
                }
                self.runs = out;
                return p;
            }
            i = i + 1;
        }
        proof {
            lemma_first_fit_from(self.runs@, n as nat, align as nat, 0);
        }
        0
    }
    /// Gives back the span that `allocate(size, _)` granted at `p`, merging
    /// it with any free run that ends at `p` or starts where the span ends.
    pub fn deallocate(&mut self, p: usize, size: usize)
        requires
            old(self).wf(),
            0 < p,
            old(self).lo <= p,
            p + run_len(size as nat) <= old(self).hi,
            forall|x: int|
                #[trigger] in_span(p as int, run_len(size as nat) as int, x) ==> !old(self).is_free(x),
        ensures
            final(self).wf(),
            final(self).lo == old(self).lo,
            final(self).hi == old(self).hi,
            forall|x: int|
                #[trigger] final(self).is_free(x) <==> (old(self).is_free(x) || in_span(
                    p as int,
                    run_len(size as nat) as int,
                    x,
                )),
    {
        let n: usize = if size == 0 {
            1
        } else {
            size
        };
        let ghost runs = self.runs@;
        let len = self.runs.len();
        let idx = insert_pos(&self.runs, p);
        proof {
            assert(n as nat == run_len(size as nat));
            assert forall|j: int| 0 <= j < idx implies run_end(#[trigger] runs[j]) <= p by {
                if run_end(runs[j]) > p {
                    assert(in_run(runs[j], p as int));
                    assert(in_span(p as int, n as int, p as int));
                }
            }
            if idx < len {
                let j = idx as int;
                if runs[j].0 < p + n {
                    assert(in_run(runs[j], runs[j].0 as int));
                    assert(in_span(p as int, n as int, runs[j].0 as int));
                }
            }
        }
        let merge_left = idx > 0 && self.runs[idx - 1].0 + self.runs[idx - 1].1 == p;
        let merge_right = idx < len && p + n == self.runs[idx].0;
        let a: usize = if merge_left {
            idx - 1
        } else {
            idx
        };
        let ms: usize = if merge_left {
            self.runs[idx - 1].0
        } else {
            p
        };
        let b: usize = if merge_right {
            idx + 1
        } else {
            idx
        };
        let me: usize = if merge_right {
            self.runs[idx].0 + self.runs[idx].1
        } else {
            p + n
        };
        proof {
            lemma_splice(
                runs,
                self.lo as int,
                self.hi as int,
                idx as int,
                p as int,
                n as int,
                a as int,
                b as int,
                ms as int,
                me as int,
            );
        }
        let mut out: Vec<(usize, usize)> = Vec::new();
        copy_runs(&mut out, &self.runs, 0, a);
        out.push((ms, me - ms));
        copy_runs(&mut out, &self.runs, b, len);
        proof {
            assert(out@ == splice(runs, a as int, b as int, ms as int, me as int));
        }
        self.runs = out;
    }
}

} // verus!
