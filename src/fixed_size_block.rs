use crate::fallback::{
    in_run, lemma_first_fit_fails, first_fit, first_fit_addr, first_fit_runs, free_at, in_span, run_len, FallbackAllocator,
};
use crate::size_class::{
    block_size, class_for, class_size, is_power_of_two, lemma_class_size_aligned,
    lemma_class_size_positive, spec_class_for, NUM_CLASSES,
};
use vstd::arithmetic::div_mod::{lemma_fundamental_div_mod, lemma_mod_multiples_basic};
use vstd::prelude::*;

verus! {

/// Bytes that the block granted for the layout `(size, align)` spans: a
/// whole block of its class, or the request itself on the fallback path.
pub open spec fn block_len(size: nat, align: nat) -> nat {
    match spec_class_for(size, align) {
        Some(c) => class_size(c),
        None => run_len(size),
    }
}

/// Address `x` lies inside a block held on one of the free lists.
pub open spec fn in_listed_block(lists: Seq<Seq<usize>>, x: int) -> bool {
    exists|c: int, k: int|
        0 <= c < lists.len() && 0 <= k < lists[c].len() && #[trigger] in_span(
            lists[c][k] as int,
            class_size(c as nat) as int,
            x,
        )
}

/// A multiple of `m` is a multiple of every divisor `a` of `m`.
pub proof fn lemma_mod_of_multiple(x: nat, m: nat, a: nat)
    requires
        m > 0,
        a > 0,
        x % m == 0,
        m % a == 0,
    ensures
        x % a == 0,
{
    lemma_fundamental_div_mod(x as int, m as int);
    lemma_fundamental_div_mod(m as int, a as int);
    let q = x as int / m as int;
    let t = m as int / a as int;
    assert(x == a * (q * t)) by (nonlinear_arith)
        requires
            x == m * q,
            m == a * t,
    ;
    lemma_mod_multiples_basic(q * t, a as int);
}

/// Nine empty free lists.
pub open spec fn empty_lists() -> Seq<Seq<usize>> {
    Seq::new(NUM_CLASSES as nat, |c: int| Seq::<usize>::empty())
}

/// A segregated-storage allocator: one LIFO free list per size class, and
/// a first-fit allocator behind them for oversized requests and refills.
/// The free lists hold the addresses of free blocks, last freed on top.
pub struct FixedSizeBlockAllocator {
    list_heads: Vec<Vec<usize>>,
    fallback_allocator: FallbackAllocator,
}

impl FixedSizeBlockAllocator {
    /// The free lists, one per class, each from oldest to most recently freed.
    pub closed spec fn lists(&self) -> Seq<Seq<usize>> {
        self.list_heads@.map_values(|v: Vec<usize>| v@)
    }

    /// The fallback allocator's free runs.
    pub closed spec fn runs(&self) -> Seq<(usize, usize)> {
        self.fallback_allocator.runs@
    }

    /// Start of the heap window.
    pub closed spec fn heap_start(&self) -> int {
        self.fallback_allocator.lo as int
    }

    /// End of the heap window.
    pub closed spec fn heap_end(&self) -> int {
        self.fallback_allocator.hi as int
    }

    /// Address `x` is free: it lies in a listed block or a fallback run.
    pub open spec fn is_free(&self, x: int) -> bool {
        free_at(self.runs(), x) || in_listed_block(self.lists(), x)
    }

    /// The fallback part is well formed, there is one list per class, and
    /// each listed block lies inside the window at a multiple of its class
    /// size, outside every fallback run, and apart from every other listed
    /// block.
    #[verifier::opaque]
    pub closed spec fn wf(&self) -> bool {
        let lists = self.lists();
        &&& self.fallback_allocator.wf()
        &&& self.list_heads@.len() == NUM_CLASSES
        &&& forall|c: int, k: int|
            0 <= c < lists.len() && 0 <= k < lists[c].len() ==> {
                &&& #[trigger] lists[c][k] > 0
                &&& self.heap_start() <= lists[c][k]
                &&& lists[c][k] + class_size(c as nat) <= self.heap_end()
                &&& lists[c][k] as nat % class_size(c as nat) == 0
            }
        &&& forall|c: int, k: int, x: int|
            0 <= c < lists.len() && 0 <= k < lists[c].len() && #[trigger] in_span(
                lists[c][k] as int,
                class_size(c as nat) as int,
                x,
            ) ==> !free_at(self.runs(), x)
        &&& forall|c1: int, k1: int, c2: int, k2: int|
            0 <= c1 < lists.len() && 0 <= k1 < lists[c1].len() && 0 <= c2 < lists.len() && 0 <= k2
                < lists[c2].len() && (c1 != c2 || k1 != k2) ==> {
                ||| #[trigger] lists[c1][k1] + class_size(c1 as nat) <= #[trigger] lists[c2][k2]
                ||| lists[c2][k2] + class_size(c2 as nat) <= lists[c1][k1]
            }
    }

    /// An allocator with empty free lists and no memory yet.
    pub fn new() -> (r: Self)
        ensures
            r.wf(),
            r.lists() == empty_lists(),
            r.runs() == Seq::<(usize, usize)>::empty(),
            forall|x: int| !r.is_free(x),
    {
        let mut list_heads: Vec<Vec<usize>> = Vec::new();
        let mut c: usize = 0;
        while c < NUM_CLASSES
            invariant
                c <= NUM_CLASSES,
                list_heads@.len() == c,
                forall|j: int| 0 <= j < c ==> (#[trigger] list_heads@[j])@ == Seq::<usize>::empty(),
            decreases NUM_CLASSES - c,
        {
            list_heads.push(Vec::new());
            c = c + 1;
        }
        let r = FixedSizeBlockAllocator { list_heads, fallback_allocator: FallbackAllocator::empty() };
        proof {
            reveal(FixedSizeBlockAllocator::wf);
            assert(r.lists() =~= empty_lists());
        }
        r
    }
    /// Keeping the fallback part and a subset of the listed blocks, each at
    /// its class and position, keeps the allocator well formed.
    proof fn lemma_fewer_blocks(a: &Self, b: &Self)
        requires
            a.wf(),
            b.fallback_allocator == a.fallback_allocator,
            b.list_heads@.len() == NUM_CLASSES,
            forall|c: int, k: int|
                0 <= c < NUM_CLASSES && 0 <= k < b.lists()[c].len() ==> k < a.lists()[c].len()
                    && #[trigger] b.lists()[c][k] == a.lists()[c][k],
        ensures
            b.wf(),
            forall|x: int| #[trigger] in_listed_block(b.lists(), x) ==> in_listed_block(a.lists(), x),
    {
        reveal(FixedSizeBlockAllocator::wf);
        let la = a.lists();
        let lb = b.lists();
        assert forall|x: int| #[trigger] in_listed_block(lb, x) implies in_listed_block(la, x) by {
            let (c, k) = choose|c: int, k: int|
                0 <= c < lb.len() && 0 <= k < lb[c].len() && #[trigger] in_span(
                    lb[c][k] as int,
                    class_size(c as nat) as int,
                    x,
                );
            assert(in_span(la[c][k] as int, class_size(c as nat) as int, x));
        }
        assert forall|c1: int, k1: int, c2: int, k2: int|
            0 <= c1 < lb.len() && 0 <= k1 < lb[c1].len() && 0 <= c2 < lb.len() && 0 <= k2
                < lb[c2].len() && (c1 != c2 || k1 != k2) implies {
                ||| #[trigger] lb[c1][k1] + class_size(c1 as nat) <= #[trigger] lb[c2][k2]
                ||| lb[c2][k2] + class_size(c2 as nat) <= lb[c1][k1]
            } by {
            assert(la[c1][k1] == lb[c1][k1]);
            assert(la[c2][k2] == lb[c2][k2]);
        }
        assert forall|c: int, k: int, x: int|
            0 <= c < lb.len() && 0 <= k < lb[c].len() && #[trigger] in_span(
                lb[c][k] as int,
                class_size(c as nat) as int,
                x,
            ) implies !free_at(b.runs(), x) by {
            assert(in_span(la[c][k] as int, class_size(c as nat) as int, x));
        }
        assert forall|c: int, k: int| 0 <= c < lb.len() && 0 <= k < lb[c].len() implies {
            &&& #[trigger] lb[c][k] > 0
            &&& b.heap_start() <= lb[c][k]
            &&& lb[c][k] + class_size(c as nat) <= b.heap_end()
            &&& lb[c][k] as nat % class_size(c as nat) == 0
        } by {
            assert(la[c][k] == lb[c][k]);
        }
    }

    /// What a call `allocate(size, align)` that returned `r` did to the
    /// allocator: which block it granted and how the lists and runs changed.
    pub open spec fn allocate_post(pre: Self, post: Self, size: usize, align: usize, r: usize) -> bool {
        &&& post.heap_start() == pre.heap_start()
        &&& post.heap_end() == pre.heap_end()
        &&& match spec_class_for(size as nat, align as nat) {
                Some(c) => if pre.lists()[c as int].len() > 0 {
                    &&& r == pre.lists()[c as int].last()
                    &&& post.lists() == pre.lists().update(
                        c as int,
                        pre.lists()[c as int].drop_last(),
                    )
                    &&& post.runs() == pre.runs()
                } else {
                    &&& r as int == first_fit_addr(pre.runs(), class_size(c), class_size(c))
                    &&& post.runs() == first_fit_runs(
                        pre.runs(),
                        class_size(c),
                        class_size(c),
                    )
                    &&& post.lists() == pre.lists()
                },
                None => {
                    &&& r as int == first_fit_addr(
                        pre.runs(),
                        run_len(size as nat),
                        align as nat,
                    )
                    &&& post.runs() == first_fit_runs(
                        pre.runs(),
                        run_len(size as nat),
                        align as nat,
                    )
                    &&& post.lists() == pre.lists()
                }
            }
        &&& r != 0 ==> match spec_class_for(size as nat, align as nat) {
                Some(c) => r as nat % class_size(c) == 0,
                None => r % align == 0,
            }
        &&& r != 0 ==> forall|x: int|
                in_span(r as int, block_len(size as nat, align as nat) as int, x)
                    ==> pre.is_free(x)
        &&& forall|x: int|
                #[trigger] post.is_free(x) <==> (pre.is_free(x) && !(r != 0 && in_span(
                    r as int,
                    block_len(size as nat, align as nat) as int,
                    x,
                )))
    }

    /// What a call `deallocate(p, size, align)` did to the allocator.
    pub open spec fn deallocate_post(pre: Self, post: Self, p: usize, size: usize, align: usize) -> bool {
        &&& post.heap_start() == pre.heap_start()
        &&& post.heap_end() == pre.heap_end()
        &&& match spec_class_for(size as nat, align as nat) {
                Some(c) => {
                    &&& post.lists() == pre.lists().update(
                        c as int,
                        pre.lists()[c as int].push(p),
                    )
                    &&& post.runs() == pre.runs()
                },
                None => {
                    &&& post.lists() == pre.lists()
                    &&& forall|x: int|
                        #[trigger] free_at(post.runs(), x) <==> (free_at(pre.runs(), x)
                            || in_span(p as int, run_len(size as nat) as int, x))
                }
            }
        &&& forall|x: int|
                #[trigger] post.is_free(x) <==> (pre.is_free(x) || in_span(
                    p as int,
                    block_len(size as nat, align as nat) as int,
                    x,
                ))
    }

    /// Gives the allocator the heap window `[heap_start, heap_start + heap_size)`,
    /// all of it free and held by the fallback allocator as one run.
    pub fn init(&mut self, heap_start: usize, heap_size: usize)
        requires
            old(self).wf(),
            old(self).lists() == empty_lists(),
            heap_start > 0,
            heap_start + heap_size <= usize::MAX,
        ensures
            final(self).wf(),
            final(self).lists() == empty_lists(),
            heap_size > 0 ==> final(self).runs() == seq![(heap_start, heap_size)],
            heap_size == 0 ==> final(self).runs() == Seq::<(usize, usize)>::empty(),
            final(self).heap_start() == heap_start,
            final(self).heap_end() == heap_start + heap_size,
            forall|x: int|
                #[trigger] final(self).is_free(x) <==> in_span(heap_start as int, heap_size as int, x),
    {
        self.fallback_allocator = FallbackAllocator::new(heap_start, heap_size);
        proof {
            reveal(FixedSizeBlockAllocator::wf);
            assert(self.lists() == empty_lists());
            assert forall|x: int| !in_listed_block(self.lists(), x) by {}
            assert forall|x: int|
                #[trigger] self.is_free(x) <==> in_span(heap_start as int, heap_size as int, x) by {
                assert(self.fallback_allocator.is_free(x) == free_at(self.runs(), x));
            }
        }
    }

    /// Serves `size` bytes aligned to `align`: from the top of its class's
    /// free list, else as a fresh block of the class carved by the fallback
    /// allocator, and through the fallback allocator alone when no class
    /// fits. Returns `0` when the memory is exhausted.
    pub fn allocate(&mut self, size: usize, align: usize) -> (r: usize)
        requires
            old(self).wf(),
            align > 0,
        ensures
            final(self).wf(),
            Self::allocate_post(*old(self), *final(self), size, align, r),
            r != 0 && is_power_of_two(align as nat) ==> r % align == 0,
    {
        proof {
            self.lemma_wf_parts();
        }
        match class_for(size, align) {
            Some(c) => {
                let bs = block_size(c);
                proof {
                    lemma_class_size_positive(c as nat);
                    assert(block_len(size as nat, align as nat) == bs);
                    assert(run_len(bs as nat) == bs);
                }
                let r = if self.list_heads[c].len() > 0 {
                    self.pop_block(c)
                } else {
                    self.fallback_alloc(bs, bs)
                };
                proof {
                    if r != 0 && is_power_of_two(align as nat) {
                        lemma_class_size_aligned(c as nat, align as nat);
                        lemma_mod_of_multiple(r as nat, bs as nat, align as nat);
                    }
                }
                r
            },
            None => self.fallback_alloc(size, align),
        }
    }

    /// After the fallback allocator granted `n` bytes at `r`, with the lists
    /// untouched, the allocator is well formed and lost exactly that span.
    proof fn lemma_fallback_shrunk(&self, pre: &Self, r: usize, n: nat)
        requires
            pre.wf(),
            self.fallback_allocator.wf(),
            self.fallback_allocator.lo == pre.fallback_allocator.lo,
            self.fallback_allocator.hi == pre.fallback_allocator.hi,
            self.list_heads == pre.list_heads,
            forall|x: int|
                #[trigger] self.fallback_allocator.is_free(x) <==> (pre.fallback_allocator.is_free(x)
                    && !(r != 0 && in_span(r as int, n as int, x))),
            r != 0 ==> forall|x: int|
                in_span(r as int, n as int, x) ==> pre.fallback_allocator.is_free(x),
        ensures
            self.wf(),
            r != 0 ==> forall|x: int| in_span(r as int, n as int, x) ==> pre.is_free(x),
            forall|x: int|
                #[trigger] self.is_free(x) <==> (pre.is_free(x) && !(r != 0 && in_span(
                    r as int,
                    n as int,
                    x,
                ))),
    {
        reveal(FixedSizeBlockAllocator::wf);
        let l = self.lists();
        assert(l == pre.lists());
        assert forall|c: int, k: int, x: int|
            0 <= c < l.len() && 0 <= k < l[c].len() && #[trigger] in_span(
                l[c][k] as int,
                class_size(c as nat) as int,
                x,
            ) implies !free_at(self.runs(), x) by {
            assert(!pre.fallback_allocator.is_free(x));
            assert(!self.fallback_allocator.is_free(x));
        }
        assert forall|x: int| #[trigger]
            self.is_free(x) <==> (pre.is_free(x) && !(r != 0 && in_span(r as int, n as int, x))) by {
            assert(self.fallback_allocator.is_free(x) == free_at(self.runs(), x));
            assert(pre.fallback_allocator.is_free(x) == free_at(pre.runs(), x));
            if in_listed_block(l, x) {
                let (c2, k2) = choose|c2: int, k2: int|
                    0 <= c2 < l.len() && 0 <= k2 < l[c2].len() && #[trigger] in_span(
                        l[c2][k2] as int,
                        class_size(c2 as nat) as int,
                        x,
                    );
                assert(!free_at(pre.runs(), x));
            }
        }
        assert forall|x: int| r != 0 && in_span(r as int, n as int, x) implies pre.is_free(x) by {
            assert(pre.fallback_allocator.is_free(x));
        }
    }

    /// Unlinks and returns the most recently freed block of class `c`.
    fn pop_block(&mut self, c: usize) -> (p: usize)
        requires
            old(self).wf(),
            c < NUM_CLASSES,
            old(self).lists()[c as int].len() > 0,
        ensures
            final(self).wf(),
            final(self).fallback_allocator == old(self).fallback_allocator,
            p > 0,
            p as nat % class_size(c as nat) == 0,
            p == old(self).lists()[c as int].last(),
            forall|x: int| in_span(p as int, class_size(c as nat) as int, x) ==> old(self).is_free(x),
            final(self).lists() == old(self).lists().update(
                c as int,
                old(self).lists()[c as int].drop_last(),
            ),
            forall|x: int|
                #[trigger] final(self).is_free(x) <==> (old(self).is_free(x) && !in_span(
                    p as int,
                    class_size(c as nat) as int,
                    x,
                )),
    {
        let ghost pre = *self;
        let ghost bs = class_size(c as nat);
        proof {
            reveal(FixedSizeBlockAllocator::wf);
        }
        let p = self.list_heads[c].pop().unwrap();
        proof {
            let ci = c as int;
            let la = pre.lists();
            let lb = self.lists();
            assert(lb =~= la.update(ci, la[ci].drop_last()));
            Self::lemma_fewer_blocks(&pre, self);
            let last = la[ci].len() - 1;
            lemma_class_size_positive(c as nat);
            assert(in_span(la[ci][last] as int, class_size(c as nat) as int, p as int));
            assert forall|x: int| in_span(p as int, class_size(c as nat) as int, x) implies pre.is_free(x) by {
                assert(in_span(la[ci][last] as int, class_size(c as nat) as int, x));
            }
            assert forall|x: int| #[trigger]
                self.is_free(x) <==> (pre.is_free(x) && !in_span(
                    p as int,
                    bs as int,
                    x,
                )) by {
                if in_span(p as int, bs as int, x) {
                    assert(in_span(la[ci][last] as int, class_size(c as nat) as int, x));
                    if in_listed_block(lb, x) {
                        let (c2, k2) = choose|c2: int, k2: int|
                            0 <= c2 < lb.len() && 0 <= k2 < lb[c2].len()
                                && #[trigger] in_span(
                                lb[c2][k2] as int,
                                class_size(c2 as nat) as int,
                                x,
                            );
                        assert(la[c2][k2] == lb[c2][k2]);
                    }
                }
                if pre.is_free(x) && !in_span(p as int, bs as int, x) && !free_at(
                    self.runs(),
                    x,
                ) {
                    let (c2, k2) = choose|c2: int, k2: int|
                        0 <= c2 < la.len() && 0 <= k2 < la[c2].len()
                            && #[trigger] in_span(
                            la[c2][k2] as int,
                            class_size(c2 as nat) as int,
                            x,
                        );
                    assert(lb[c2][k2] == la[c2][k2]);
                    assert(in_listed_block(lb, x));
                }
            }
        }
        p
    }

    /// Serves the request from the fallback allocator, lists untouched.
    fn fallback_alloc(&mut self, size: usize, align: usize) -> (r: usize)
        requires
            old(self).wf(),
            align > 0,
        ensures
            final(self).wf(),
            final(self).heap_start() == old(self).heap_start(),
            final(self).heap_end() == old(self).heap_end(),
            r as int == first_fit_addr(old(self).runs(), run_len(size as nat), align as nat),
            final(self).runs() == first_fit_runs(old(self).runs(), run_len(size as nat), align as nat),
            final(self).lists() == old(self).lists(),
            r != 0 ==> r % align == 0,
            r != 0 ==> forall|x: int|
                in_span(r as int, run_len(size as nat) as int, x) ==> old(self).is_free(x),
            forall|x: int|
                #[trigger] final(self).is_free(x) <==> (old(self).is_free(x) && !(r != 0 && in_span(
                    r as int,
                    run_len(size as nat) as int,
                    x,
                ))),
    {
        let ghost pre = *self;
        proof {
            pre.lemma_wf_parts();
        }
        let r = self.fallback_allocator.allocate(size, align);
        proof {
            self.lemma_fallback_shrunk(&pre, r, run_len(size as nat));
        }
        r
    }

    /// The parts of well-formedness that callers use most.
    proof fn lemma_wf_parts(&self)
        requires
            self.wf(),
        ensures
            self.fallback_allocator.wf(),
            self.list_heads@.len() == NUM_CLASSES,
            self.lists().len() == NUM_CLASSES,
            forall|c: int| 0 <= c < NUM_CLASSES ==> #[trigger] self.lists()[c] == self.list_heads@[c]@,
            forall|c: int, k: int|
                0 <= c < NUM_CLASSES && 0 <= k < self.lists()[c].len() ==> #[trigger] self.lists()[c][k]
                    > 0,
            forall|k: int| 0 <= k < self.runs().len() ==> (#[trigger] self.runs()[k]).0 > 0,
    {
        reveal(FixedSizeBlockAllocator::wf);
    }

    /// Takes back the block that `allocate(size, align)` granted at `p`,
    /// with the same layout: onto the top of its class's free list, or back
    /// to the fallback allocator, merged with the free runs it touches, when
    /// no class fits the layout.
    pub fn deallocate(&mut self, p: usize, size: usize, align: usize)
        requires
            old(self).wf(),
            p > 0,
            old(self).heap_start() <= p,
            p + block_len(size as nat, align as nat) <= old(self).heap_end(),
            spec_class_for(size as nat, align as nat) is Some ==> p as nat % block_len(
                size as nat,
                align as nat,
            ) == 0,
            forall|x: int|
                #[trigger] in_span(p as int, block_len(size as nat, align as nat) as int, x)
                    ==> !old(self).is_free(x),
        ensures
            final(self).wf(),
            Self::deallocate_post(*old(self), *final(self), p, size, align),
    {
        proof {
            self.lemma_wf_parts();
        }
        match class_for(size, align) {
            Some(c) => {
                proof {
                    assert(block_len(size as nat, align as nat) == class_size(c as nat));
                }
                self.push_block(c, p);
            },
            None => {
                self.fallback_dealloc(p, size);
            },
        }
    }

    /// Makes the block at `p` the new top of the free list of class `c`.
    fn push_block(&mut self, c: usize, p: usize)
        requires
            old(self).wf(),
            c < NUM_CLASSES,
            p > 0,
            old(self).heap_start() <= p,
            p + class_size(c as nat) <= old(self).heap_end(),
            p as nat % class_size(c as nat) == 0,
            forall|x: int|
                #[trigger] in_span(p as int, class_size(c as nat) as int, x) ==> !old(self).is_free(x),
        ensures
            final(self).wf(),
            final(self).fallback_allocator == old(self).fallback_allocator,
            final(self).lists() == old(self).lists().update(c as int, old(self).lists()[c as int].push(p)),
            forall|x: int|
                #[trigger] final(self).is_free(x) <==> (old(self).is_free(x) || in_span(
                    p as int,
                    class_size(c as nat) as int,
                    x,
                )),
    {
        let ghost pre = *self;
        proof {
            reveal(FixedSizeBlockAllocator::wf);
        }
        self.list_heads[c].push(p);
        proof {
            reveal(FixedSizeBlockAllocator::wf);
            let ci = c as int;
            let cs = class_size(c as nat) as int;
            let la = pre.lists();
            let lb = self.lists();
            let top = la[ci].len() as int;
            assert(lb =~= la.update(ci, la[ci].push(p)));
            assert forall|c2: int, k2: int|
                0 <= c2 < lb.len() && 0 <= k2 < lb[c2].len() && !(c2 == ci && k2 == top) implies
                k2 < la[c2].len() && #[trigger] lb[c2][k2] == la[c2][k2] by {}
            assert(lb[ci][top] == p);
            lemma_class_size_positive(c as nat);
            assert forall|c2: int, k2: int|
                0 <= c2 < la.len() && 0 <= k2 < la[c2].len() implies {
                ||| p + cs <= #[trigger] la[c2][k2]
                ||| la[c2][k2] + class_size(c2 as nat) <= p
            } by {
                let q = la[c2][k2] as int;
                lemma_class_size_positive(c2 as nat);
                if !(p + cs <= q) && !(q + class_size(c2 as nat) <= p) {
                    let x = if p >= q { p as int } else { q };
                    assert(in_span(q, class_size(c2 as nat) as int, x));
                    assert(in_listed_block(la, x));
                    assert(in_span(p as int, cs, x));
                }
            }
            assert forall|c1: int, k1: int, c2: int, k2: int|
                0 <= c1 < lb.len() && 0 <= k1 < lb[c1].len() && 0 <= c2 < lb.len() && 0 <= k2
                    < lb[c2].len() && (c1 != c2 || k1 != k2) implies {
                ||| #[trigger] lb[c1][k1] + class_size(c1 as nat) <= #[trigger] lb[c2][k2]
                ||| lb[c2][k2] + class_size(c2 as nat) <= lb[c1][k1]
            } by {
                if c1 == ci && k1 == top {
                    assert(lb[c2][k2] == la[c2][k2]);
                } else if c2 == ci && k2 == top {
                    assert(lb[c1][k1] == la[c1][k1]);
                } else {
                    assert(lb[c1][k1] == la[c1][k1]);
                    assert(lb[c2][k2] == la[c2][k2]);
                }
            }
            assert forall|c2: int, k2: int, x: int|
                0 <= c2 < lb.len() && 0 <= k2 < lb[c2].len() && #[trigger] in_span(
                    lb[c2][k2] as int,
                    class_size(c2 as nat) as int,
                    x,
                ) implies !free_at(self.runs(), x) by {
                if c2 == ci && k2 == top {
                    assert(in_span(p as int, cs, x));
                } else {
                    assert(in_span(la[c2][k2] as int, class_size(c2 as nat) as int, x));
                }
            }
            assert forall|c2: int, k2: int| 0 <= c2 < lb.len() && 0 <= k2 < lb[c2].len() implies {
                &&& #[trigger] lb[c2][k2] > 0
                &&& self.heap_start() <= lb[c2][k2]
                &&& lb[c2][k2] + class_size(c2 as nat) <= self.heap_end()
                &&& lb[c2][k2] as nat % class_size(c2 as nat) == 0
            } by {
                if !(c2 == ci && k2 == top) {
                    assert(lb[c2][k2] == la[c2][k2]);
                }
            }
            assert forall|x: int| #[trigger]
                self.is_free(x) <==> (pre.is_free(x) || in_span(p as int, cs, x)) by {
                if in_listed_block(lb, x) {
                    let (c2, k2) = choose|c2: int, k2: int|
                        0 <= c2 < lb.len() && 0 <= k2 < lb[c2].len() && #[trigger] in_span(
                            lb[c2][k2] as int,
                            class_size(c2 as nat) as int,
                            x,
                        );
                    if !(c2 == ci && k2 == top) {
                        assert(in_span(la[c2][k2] as int, class_size(c2 as nat) as int, x));
                    }
                }
                if in_span(p as int, cs, x) {
                    assert(in_span(lb[ci][top] as int, class_size(ci as nat) as int, x));
                }
                if in_listed_block(la, x) {
                    let (c2, k2) = choose|c2: int, k2: int|
                        0 <= c2 < la.len() && 0 <= k2 < la[c2].len() && #[trigger] in_span(
                            la[c2][k2] as int,
                            class_size(c2 as nat) as int,
                            x,
                        );
                    assert(lb[c2][k2] == la[c2][k2]);
                    assert(in_span(lb[c2][k2] as int, class_size(c2 as nat) as int, x));
                }
            }
        }
    }

    /// Returns the span of a fallback allocation to the fallback allocator.
    fn fallback_dealloc(&mut self, p: usize, size: usize)
        requires
            old(self).wf(),
            p > 0,
            old(self).heap_start() <= p,
            p + run_len(size as nat) <= old(self).heap_end(),
            forall|x: int|
                #[trigger] in_span(p as int, run_len(size as nat) as int, x) ==> !old(self).is_free(x),
        ensures
            final(self).wf(),
            final(self).heap_start() == old(self).heap_start(),
            final(self).heap_end() == old(self).heap_end(),
            final(self).lists() == old(self).lists(),
            forall|x: int|
                #[trigger] free_at(final(self).runs(), x) <==> (free_at(old(self).runs(), x) || in_span(
                    p as int,
                    run_len(size as nat) as int,
                    x,
                )),
            forall|x: int|
                #[trigger] final(self).is_free(x) <==> (old(self).is_free(x) || in_span(
                    p as int,
                    run_len(size as nat) as int,
                    x,
                )),
    {
        let ghost pre = *self;
        proof {
            reveal(FixedSizeBlockAllocator::wf);
            assert forall|x: int|
                #[trigger] in_span(p as int, run_len(size as nat) as int, x)
                    implies !pre.fallback_allocator.is_free(x) by {
                assert(!pre.is_free(x));
            }
        }
        self.fallback_allocator.deallocate(p, size);
        proof {
            reveal(FixedSizeBlockAllocator::wf);
            let l = self.lists();
            assert(l == pre.lists());
            assert forall|x: int| #[trigger] free_at(self.runs(), x) <==> (free_at(pre.runs(), x) || in_span(
                p as int,
                run_len(size as nat) as int,
                x,
            )) by {
                assert(self.fallback_allocator.is_free(x) == free_at(self.runs(), x));
                assert(pre.fallback_allocator.is_free(x) == free_at(pre.runs(), x));
            }
            assert forall|c: int, k: int, x: int|
                0 <= c < l.len() && 0 <= k < l[c].len() && #[trigger] in_span(
                    l[c][k] as int,
                    class_size(c as nat) as int,
                    x,
                ) implies !free_at(self.runs(), x) by {
                assert(in_listed_block(l, x));
                assert(!free_at(pre.runs(), x));
                if in_span(p as int, run_len(size as nat) as int, x) {
                    assert(pre.is_free(x));
                }
            }
        }
    }

    /// Every free address lies inside the heap window.
    pub proof fn lemma_free_in_window(&self, x: int)
        requires
            self.wf(),
            self.is_free(x),
        ensures
            self.heap_start() <= x < self.heap_end(),
    {
        reveal(FixedSizeBlockAllocator::wf);
        let l = self.lists();
        if free_at(self.runs(), x) {
            let k = choose|k: int| 0 <= k < self.runs().len() && #[trigger] in_run(self.runs()[k], x);
            assert(self.runs()[k].1 > 0);
        } else {
            let (c, k) = choose|c: int, k: int|
                0 <= c < l.len() && 0 <= k < l[c].len() && #[trigger] in_span(
                    l[c][k] as int,
                    class_size(c as nat) as int,
                    x,
                );
            assert(l[c][k] > 0);
        }
    }

    /// A granted block spans at least the bytes asked for.
    pub proof fn lemma_block_len_covers(size: usize, align: usize)
        ensures
            block_len(size as nat, align as nat) >= size,
            block_len(size as nat, align as nat) > 0,
    {
        match spec_class_for(size as nat, align as nat) {
            Some(c) => {
                lemma_class_size_positive(c);
            },
            None => {},
        }
    }

    /// Round trip: while a granted block is out, none of its `size` bytes is
    /// free, so the caller may write all of them without touching the
    /// allocator's state, and the block meets what `deallocate` asks of it.
    /// Giving it back with its layout restores exactly the free memory of
    /// before the grant, and when the layout has a size class the next
    /// request of that layout gets the same block again.
    pub proof fn lemma_round_trip(
        s0: Self,
        s1: Self,
        s2: Self,
        s3: Self,
        p: usize,
        size: usize,
        align: usize,
        q: usize,
    )
        requires
            s0.wf(),
            Self::allocate_post(s0, s1, size, align, p),
            p != 0,
            Self::deallocate_post(s1, s2, p, size, align),
            Self::allocate_post(s2, s3, size, align, q),
        ensures
            forall|x: int| in_span(p as int, size as int, x) ==> !s1.is_free(x),
            s1.heap_start() <= p,
            p + block_len(size as nat, align as nat) <= s1.heap_end(),
            spec_class_for(size as nat, align as nat) is Some ==> p as nat % block_len(
                size as nat,
                align as nat,
            ) == 0,
            forall|x: int|
                #[trigger] in_span(p as int, block_len(size as nat, align as nat) as int, x)
                    ==> !s1.is_free(x),
            forall|x: int| s2.is_free(x) == s0.is_free(x),
            spec_class_for(size as nat, align as nat) is Some ==> q == p,
    {
        Self::lemma_block_len_covers(size, align);
        let n = block_len(size as nat, align as nat) as int;
        assert(in_span(p as int, n, p as int));
        s0.lemma_free_in_window(p as int);
        assert(in_span(p as int, n, p + n - 1));
        s0.lemma_free_in_window(p + n - 1);
        assert forall|x: int| in_span(p as int, size as int, x) implies !s1.is_free(x) by {
            assert(in_span(p as int, n, x));
        }
        assert forall|x: int| s2.is_free(x) == s0.is_free(x) by {
            if in_span(p as int, n, x) {
                assert(s0.is_free(x));
            }
        }
        s0.lemma_wf_parts();
        if spec_class_for(size as nat, align as nat) is Some {
            let c = spec_class_for(size as nat, align as nat)->Some_0 as int;
            assert(0 <= c < NUM_CLASSES);
            assert(s1.lists().len() == NUM_CLASSES);
            assert(s2.lists()[c] == s1.lists()[c].push(p));
        }
    }

    /// Last freed, first reused: two blocks of one size class given back one
    /// after the other come out again in the opposite order.
    pub proof fn lemma_lifo_reuse(
        s0: Self,
        s1: Self,
        s2: Self,
        s3: Self,
        s4: Self,
        a: usize,
        size_a: usize,
        align_a: usize,
        b: usize,
        size_b: usize,
        align_b: usize,
        size: usize,
        align: usize,
        r1: usize,
        r2: usize,
    )
        requires
            s0.wf(),
            spec_class_for(size_a as nat, align_a as nat) is Some,
            spec_class_for(size_b as nat, align_b as nat) == spec_class_for(size_a as nat, align_a as nat),
            spec_class_for(size as nat, align as nat) == spec_class_for(size_a as nat, align_a as nat),
            Self::deallocate_post(s0, s1, a, size_a, align_a),
            Self::deallocate_post(s1, s2, b, size_b, align_b),
            Self::allocate_post(s2, s3, size, align, r1),
            Self::allocate_post(s3, s4, size, align, r2),
        ensures
            r1 == b,
            r2 == a,
    {
        s0.lemma_wf_parts();
        let c = spec_class_for(size as nat, align as nat)->Some_0 as int;
        assert(0 <= c < NUM_CLASSES);
        assert(s2.lists()[c] == s0.lists()[c].push(a).push(b));
        assert(s3.lists()[c] == s0.lists()[c].push(a));
    }

    /// Exhaustion: a request fails exactly when its class list is empty and
    /// no free run can hold it, so one larger than every free run fails; a
    /// failed request leaves the allocator as it was.
    pub proof fn lemma_exhaustion(s0: Self, s1: Self, size: usize, align: usize, r: usize)
        requires
            s0.wf(),
            Self::allocate_post(s0, s1, size, align, r),
        ensures
            r == 0 ==> s1.lists() == s0.lists() && s1.runs() == s0.runs(),
            r == 0 <==> match spec_class_for(size as nat, align as nat) {
                Some(c) => s0.lists()[c as int].len() == 0 && first_fit(
                    s0.runs(),
                    class_size(c),
                    class_size(c),
                ) is None,
                None => first_fit(s0.runs(), run_len(size as nat), align as nat) is None,
            },
            (forall|k: int|
                0 <= k < s0.runs().len() ==> (#[trigger] s0.runs()[k]).1 < block_len(
                    size as nat,
                    align as nat,
                )) && match spec_class_for(size as nat, align as nat) {
                Some(c) => s0.lists()[c as int].len() == 0,
                None => true,
            } ==> r == 0,
    {
        s0.lemma_wf_parts();
        let runs = s0.runs();
        let l = s0.lists();
        match spec_class_for(size as nat, align as nat) {
            Some(c) => {
                lemma_first_fit_fails(runs, class_size(c), class_size(c));
                if l[c as int].len() > 0 {
                    assert(l[c as int][l[c as int].len() - 1] > 0);
                }
            },
            None => {
                lemma_first_fit_fails(runs, run_len(size as nat), align as nat);
            },
        }
    }

}

} // verus!
