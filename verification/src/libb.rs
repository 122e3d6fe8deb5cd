//! Small containers and a random generator: a set of indices with O(1)
//! insertion, removal and membership, and a xorshift generator.
use vstd::prelude::*;

verus! {

/// Marks an index that is not in the set.
pub const ABSENT: usize = usize::MAX;

/// A set of indices below a fixed capacity. `que` lists the members in
/// insertion order, up to the reordering that removals make; `pos[v]` is the
/// position of `v` in `que`, or `ABSENT`.
#[derive(Debug, Clone)]
pub struct IndexSet {
    pub que: Vec<usize>,
    pub pos: Vec<usize>,
}

impl IndexSet {
    /// The indices an `IndexSet` can hold: those below its capacity.
    pub open spec fn capacity(&self) -> nat {
        self.pos@.len()
    }

    pub open spec fn wf(&self) -> bool {
        &&& self.pos@.len() < ABSENT
        &&& self.que@.len() <= self.pos@.len()
        &&& self.que@.no_duplicates()
        &&& forall|k: int| 0 <= k < self.que@.len() ==> #[trigger] self.que@[k] < self.pos@.len()
        &&& forall|k: int|
            0 <= k < self.que@.len() ==> self.pos@[#[trigger] self.que@[k] as int] == k
        &&& forall|v: int|
            0 <= v < self.pos@.len() ==> (#[trigger] self.pos@[v] == ABSENT || (
            self.pos@[v] < self.que@.len() && self.que@[self.pos@[v] as int] == v))
    }

    /// The members as a set.
    pub open spec fn members(&self) -> Set<usize> {
        self.que@.to_set()
    }

    pub fn empty(n: usize) -> (s: Self)
        requires
            n < ABSENT,
        ensures
            s.wf(),
            s.capacity() == n,
            s.que@ == Seq::<usize>::empty(),
    {
        IndexSet { que: Vec::with_capacity(n), pos: vec![ABSENT; n] }
    }

    pub fn full(n: usize) -> (s: Self)
        requires
            n < ABSENT,
        ensures
            s.wf(),
            s.capacity() == n,
            s.que@ == Seq::new(n as nat, |k: int| k as usize),
    {
        let mut que: Vec<usize> = Vec::with_capacity(n);
        let mut k: usize = 0;
        while k < n
            invariant
                k <= n,
                que@ == Seq::new(k as nat, |j: int| j as usize),
            decreases n - k,
        {
            que.push(k);
            k = k + 1;
        }
        let pos = que.clone();
        assert(pos@ == que@);
        let s = IndexSet { que, pos };
        assert(s.que@.no_duplicates()) by {
            assert forall|a: int, b: int|
                0 <= a < s.que@.len() && 0 <= b < s.que@.len() && a != b implies s.que@[a]
                != s.que@[b] by {}
        }
        s
    }

    pub fn contains(&self, v: usize) -> (r: bool)
        requires
            self.wf(),
            v < self.capacity(),
        ensures
            r == self.que@.contains(v),
            r == self.members().contains(v),
    {
        proof {
            if self.que@.contains(v) {
                let k = choose|k: int| 0 <= k < self.que@.len() && self.que@[k] == v;
                assert(self.pos@[self.que@[k] as int] == k);
            }
        }
        self.pos[v] != ABSENT
    }

    pub fn size(&self) -> (r: usize)
        ensures
            r == self.que@.len(),
    {
        self.que.len()
    }

    pub fn get_first(&self) -> (r: Option<usize>)
        ensures
            r == (if self.que@.len() > 0 {
                Some(self.que@[0])
            } else {
                None
            }),
    {
        if self.que.len() > 0 {
            Some(self.que[0])
        } else {
            None
        }
    }

    /// The members, in their current order.
    pub fn iter(&self) -> (r: &[usize])
        ensures
            r@ == self.que@,
    {
        self.que.as_slice()
    }

    /// Inserts `v` at the end of the order if it is not a member yet.
    pub fn add(&mut self, v: usize)
        requires
            old(self).wf(),
            v < old(self).capacity(),
        ensures
            final(self).wf(),
            final(self).capacity() == old(self).capacity(),
            final(self).que@ == (if old(self).que@.contains(v) {
                old(self).que@
            } else {
                old(self).que@.push(v)
            }),
            final(self).members() == old(self).members().insert(v),
    {
        if self.contains(v) {
            proof {
                broadcast use vstd::seq_lib::group_seq_properties;
                assert(self.members() =~= self.members().insert(v));
            }
            return ;
        }
        let ghost old_que = self.que@;
        let ghost old_pos = self.pos@;
        proof {
            // a duplicate-free sequence of indices below the capacity is shorter than it
            if self.que@.len() == self.pos@.len() {
                lemma_full_que_contains_all(self.que@, self.pos@.len());
                assert(self.que@.contains(v));
            }
        }
        let len = self.que.len();
        self.pos[v] = len;
        self.que.push(v);
        proof {
            assert(self.que@ == old_que.push(v));
            assert forall|k: int| 0 <= k < self.que@.len() implies self.pos@[
                #[trigger] self.que@[k] as int] == k by {
                if k < old_que.len() {
                    assert(old_que[k] != v);
                }
            }
            assert forall|w: int| 0 <= w < self.pos@.len() implies (#[trigger] self.pos@[w]
                == ABSENT || (self.pos@[w] < self.que@.len() && self.que@[self.pos@[w] as int]
                == w)) by {
                if w != v {
                    assert(self.pos@[w] == old_pos[w]);
                }
            }
            assert(self.que@.no_duplicates()) by {
                assert forall|a: int, b: int|
                    0 <= a < self.que@.len() && 0 <= b < self.que@.len() && a != b implies
                    self.que@[a] != self.que@[b] by {
                    if a < old_que.len() && b < old_que.len() {
                    } else if a < old_que.len() {
                        assert(old_que.contains(old_que[a]));
                    } else if b < old_que.len() {
                        assert(old_que.contains(old_que[b]));
                    }
                }
            }
            broadcast use vstd::seq_lib::group_seq_properties;
            assert(self.members() =~= old_que.to_set().insert(v));
        }
    }

    /// Removes `v` if it is a member: the last member takes its place in the order.
    pub fn remove(&mut self, v: usize)
        requires
            old(self).wf(),
            v < old(self).capacity(),
        ensures
            final(self).wf(),
            final(self).capacity() == old(self).capacity(),
            final(self).que@ == (if old(self).que@.contains(v) {
                let p = old(self).que@.index_of(v);
                old(self).que@.update(p, old(self).que@.last()).drop_last()
            } else {
                old(self).que@
            }),
            final(self).members() == old(self).members().remove(v),
    {
        if !self.contains(v) {
            proof {
                assert(self.members() =~= self.members().remove(v));
            }
            return ;
        }
        let ghost old_que = self.que@;
        let ghost old_pos = self.pos@;
        let p = self.pos[v];
        let b = self.que[self.que.len() - 1];
        proof {
            assert(old_que[p as int] == v);
            assert(old_que.index_of(v) == p as int) by {
                old_que.index_of_first_ensures(v);
                let q = old_que.index_of(v);
                assert(old_que[q] == v);
            }
        }
        self.que.swap_remove(p);
        self.pos[b] = p;
        self.pos[v] = ABSENT;
        proof {
            let n = old_que.len();
            let new_que = old_que.update(p as int, old_que[n - 1]).drop_last();
            assert(self.que@ == new_que);
            assert(old_pos[b as int] == n - 1);
            assert forall|k: int| 0 <= k < self.que@.len() implies #[trigger] self.que@[k]
                != v by {
                if k == p {
                    if b == v {
                        assert(n - 1 == p);
                    }
                } else {
                    assert(old_que[k] != old_que[p as int]);
                }
            }
            assert forall|k: int| 0 <= k < self.que@.len() implies self.pos@[
                #[trigger] self.que@[k] as int] == k by {
                if k == p {
                    assert(self.que@[k] == b);
                } else {
                    assert(old_que[k] != b);
                    assert(old_que[k] != v);
                }
            }
            assert forall|w: int| 0 <= w < self.pos@.len() implies (#[trigger] self.pos@[w]
                == ABSENT || (self.pos@[w] < self.que@.len() && self.que@[self.pos@[w] as int]
                == w)) by {
                if w == v {
                } else if w == b {
                    assert(p < n - 1) by {
                        if p == n - 1 {
                            assert(old_que[p as int] == b);
                        }
                    }
                } else {
                    assert(self.pos@[w] == old_pos[w]);
                    if old_pos[w] != ABSENT {
                        assert(old_pos[w] != p) by {
                            assert(old_que[p as int] == v);
                        }
                        assert(old_pos[w] != n - 1) by {
                            assert(old_que[n - 1] == b);
                        }
                    }
                }
            }
            assert(self.que@.no_duplicates()) by {
                assert forall|a: int, c: int|
                    0 <= a < self.que@.len() && 0 <= c < self.que@.len() && a != c implies
                    self.que@[a] != self.que@[c] by {
                    let a0 = if a == p {
                        n - 1
                    } else {
                        a
                    };
                    let c0 = if c == p {
                        n - 1
                    } else {
                        c
                    };
                    assert(self.que@[a] == old_que[a0]);
                    assert(self.que@[c] == old_que[c0]);
                }
            }
            assert(self.members() =~= old_que.to_set().remove(v)) by {
                assert forall|w: usize| self.members().contains(w) implies old_que.to_set().remove(
                    v,
                ).contains(w) by {
                    let k = choose|k: int| 0 <= k < self.que@.len() && self.que@[k] == w;
                    let k0 = if k == p {
                        n - 1
                    } else {
                        k
                    };
                    assert(old_que[k0] == w);
                }
                assert forall|w: usize| old_que.to_set().remove(v).contains(w) implies
                    self.members().contains(w) by {
                    let k = choose|k: int| 0 <= k < old_que.len() && old_que[k] == w;
                    if k == n - 1 {
                        assert(self.que@[p as int] == w);
                    } else {
                        assert(k != p);
                        assert(self.que@[k] == w);
                    }
                }
            }
        }
    }
}

/// A duplicate-free sequence of `n` indices below `n` holds every index below `n`.
proof fn lemma_full_que_contains_all(s: Seq<usize>, n: nat)
    requires
        n <= usize::MAX,
        s.len() == n,
        s.no_duplicates(),
        forall|k: int| 0 <= k < s.len() ==> #[trigger] s[k] < n,
    ensures
        forall|v: usize| v < n ==> s.contains(v),
{
    let range = Set::new(|v: usize| v < n);
    assert(s.to_set().subset_of(range));
    lemma_usize_range_finite_len(n);
    s.unique_seq_to_set();
    assert forall|v: usize| v < n implies s.contains(v) by {
        if !s.contains(v) {
            assert(s.to_set().subset_of(range.remove(v)));
            vstd::set_lib::lemma_len_subset(s.to_set(), range.remove(v));
        }
    }
}

/// The indices below `n` form a finite set of `n` elements.
proof fn lemma_usize_range_finite_len(n: nat)
    requires
        n <= usize::MAX,
    ensures
        Set::new(|v: usize| v < n).finite(),
        Set::new(|v: usize| v < n).len() == n,
    decreases n,
{
    if n == 0 {
        assert(Set::new(|v: usize| v < n) =~= Set::<usize>::empty());
    } else {
        lemma_usize_range_finite_len((n - 1) as nat);
        let smaller = Set::new(|v: usize| v < (n - 1) as nat);
        assert(Set::new(|v: usize| v < n) =~= smaller.insert((n - 1) as usize));
    }
}

/// One xorshift32 step.
pub open spec fn xorshift(x: u32) -> u32 {
    let a = x ^ (x << 13u32);
    let b = a ^ (a >> 17u32);
    b ^ (b << 5u32)
}

/// `len * x / 2^32`: a draw `x` scaled to an index below `len`.
pub open spec fn scale(len: nat, x: u32) -> nat {
    (len * (x as nat)) / (0x1_0000_0000 as nat)
}

/// The sequence `s` after the Fisher-Yates steps for positions `i` down to 1,
/// with the generator in `state`, and the generator's state afterwards.
pub open spec fn shuffled<T>(s: Seq<T>, state: u32, i: int) -> (Seq<T>, u32)
    decreases i,
{
    if i < 1 {
        (s, state)
    } else {
        let x = xorshift(state);
        let j = scale((i + 1) as nat, x) as int;
        shuffled(s.update(i, s[j]).update(j, s[i]), x, i - 1)
    }
}

proof fn lemma_scale_bound(len: nat, x: u32)
    requires
        len > 0,
    ensures
        scale(len, x) < len,
{
    assert((len * (x as nat)) / (0x1_0000_0000 as nat) < len) by (nonlinear_arith)
        requires
            len > 0,
            x < 0x1_0000_0000,
    ;
}

/// Exchanges two items of a slice.
#[verifier::external_body]
fn slice_swap<T>(v: &mut [T], i: usize, j: usize)
    requires
        i < old(v)@.len(),
        j < old(v)@.len(),
    ensures
        final(v)@ == old(v)@.update(i as int, old(v)@[j as int]).update(j as int, old(v)@[i as int]),
{
    v.swap(i, j)
}

/// A xorshift32 generator.
#[derive(Debug, Clone, Copy)]
pub struct Rnd {
    pub state: u32,
}

impl Rnd {
    pub fn new(seed: u32) -> (r: Self)
        ensures
            r.state == (if seed == 0 {
                u32::MAX
            } else {
                seed
            }),
    {
        let mut seed = seed;
        if seed == 0 {
            seed = u32::MAX;
        }
        Self { state: seed }
    }

    pub fn _next(&mut self) -> (r: u32)
        ensures
            r == xorshift(old(self).state),
            final(self).state == r,
    {
        let mut x = self.state;
        x = x ^ (x << 13u32);
        x = x ^ (x >> 17u32);
        x = x ^ (x << 5u32);
        self.state = x;
        x
    }

    /// An index below `len` (zero when `len` is zero).
    pub fn gen_index(&mut self, len: usize) -> (r: usize)
        requires
            len <= 0x1_0000_0000,
        ensures
            final(self).state == xorshift(old(self).state),
            r == scale(len as nat, final(self).state),
            len > 0 ==> r < len,
    {
        let x = self._next();
        let l: u64 = len as u64;
        assert(l * x <= 0x1_0000_0000 * 0xffff_ffff) by (nonlinear_arith)
            requires
                l <= 0x1_0000_0000,
                x <= 0xffff_ffff,
        ;
        let p: u64 = l * (x as u64);
        assert(p >> 32u64 == p / 0x1_0000_0000u64) by (bit_vector);
        proof {
            if len > 0 {
                lemma_scale_bound(len as nat, x);
            } else {
                assert(scale(0, x) == 0);
            }
        }
        (p >> 32u64) as usize
    }

    /// A number in `l..r`.
    pub fn gen_range(&mut self, l: usize, r: usize) -> (res: usize)
        requires
            l < r,
            r <= 0x1_0000_0000,
        ensures
            final(self).state == xorshift(old(self).state),
            res == l + scale((r - l) as nat, final(self).state),
            l <= res < r,
    {
        let k = self.gen_index(r - l);
        l + k
    }

    /// An item of `v`, at a drawn index.
    pub fn choice<T: Copy>(&mut self, v: &[T]) -> (r: T)
        requires
            0 < v@.len() <= 0x1_0000_0000,
        ensures
            final(self).state == xorshift(old(self).state),
            r == v@[scale(v@.len(), final(self).state) as int],
    {
        let idx = self.gen_index(v.len());
        v[idx]
    }

    /// Fisher-Yates: for each position from the last down to 1, exchanges it
    /// with a drawn position at or before it.
    pub fn shuffle<T>(&mut self, v: &mut [T])
        requires
            old(v)@.len() <= 0x1_0000_0000,
        ensures
            (final(v)@, final(self).state) == shuffled(old(v)@, old(self).state, old(v)@.len() - 1),
            final(v)@.to_multiset() == old(v)@.to_multiset(),
    {
        let n = v.len();
        if n == 0 {
            return ;
        }
        let ghost target = shuffled(v@, self.state, n - 1);
        let ghost ms = v@.to_multiset();
        let mut i: usize = n - 1;
        while i >= 1
            invariant
                i < n,
                v@.len() == n,
                n <= 0x1_0000_0000,
                shuffled(v@, self.state, i as int) == target,
                v@.to_multiset() == ms,
            decreases i,
        {
            let j = self.gen_range(0, i + 1);
            let ghost before = v@;
            slice_swap(v, i, j);
            proof {
                broadcast use vstd::seq_lib::to_multiset_update;

                let bi = before[i as int];
                let bj = before[j as int];
                let mid = before.update(i as int, bj);
                assert(mid[j as int] == bj);
                assert(mid.to_multiset() == before.to_multiset().insert(bj).remove(bi));
                assert(v@ == mid.update(j as int, bi));
                assert(v@.to_multiset() == mid.to_multiset().insert(bi).remove(bj));
                let m = before.to_multiset();
                assert(m.count(bi) > 0 && m.count(bj) > 0) by {
                    broadcast use vstd::seq_lib::to_multiset_contains;

                    assert(before.contains(bi));
                    assert(before.contains(bj));
                }
                assert(v@.to_multiset() =~= m) by {
                    broadcast use vstd::multiset::group_multiset_axioms;

                }
            }
            i = i - 1;
        }
    }
}

} // verus!
