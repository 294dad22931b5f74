//! Enumeration of fixed-size card combinations drawn from the cards a
//! board has not used yet.

use vstd::prelude::*;
use crate::cards::card::Card;
use crate::cards::hand::Hand;
use crate::cards::hand::lemma_with_size;
use crate::cards::hand::lemma_count_zero;
use crate::cards::hand::spec_with;
use crate::cards::hand::spec_without;
use crate::cards::hand::spec_has;

verus! {

/// The cursor's digits as one number: base 53, most significant first,
/// each digit one more than its card so no digit is zero.
pub open spec fn spec_key_digits(v: Seq<u8>) -> int
    decreases v.len(),
{
    if v.len() == 0 {
        0
    } else {
        spec_key_digits(v.drop_last()) * 53 + (v.last() + 1)
    }
}

/// A live cursor's position in the enumeration order; exhausted is -1.
pub open spec fn spec_cursor_key(it: HandIterator) -> int {
    if it.done {
        -1
    } else {
        spec_key_digits(it.current@)
    }
}

/// The key of a digit string is bounded by its width.
pub proof fn lemma_key_bounds(v: Seq<u8>)
    requires
        forall|k: int| 0 <= k < v.len() ==> (#[trigger] v[k]) < 52,
    ensures
        0 <= spec_key_digits(v) < vstd::arithmetic::power::pow(53, v.len() as nat),
    decreases v.len(),
{
    vstd::arithmetic::power::lemma_pow_positive(53, v.len() as nat);
    if v.len() == 0 {
        assert(vstd::arithmetic::power::pow(53, 0nat) == 1) by {
            reveal(vstd::arithmetic::power::pow);
        }
    } else {
        assert forall|k: int| 0 <= k < v.drop_last().len() implies (#[trigger] v.drop_last()[k])
            < 52 by {
            assert(v.drop_last()[k] == v[k]);
        }
        lemma_key_bounds(v.drop_last());
        let p1 = vstd::arithmetic::power::pow(53, (v.len() - 1) as nat);
        assert(vstd::arithmetic::power::pow(53, v.len() as nat) == 53 * p1) by {
            reveal(vstd::arithmetic::power::pow);
        }
        assert(spec_key_digits(v.drop_last()) * 53 + (v.last() + 1) < 53 * p1) by (nonlinear_arith)
            requires
                spec_key_digits(v.drop_last()) <= p1 - 1,
                v.last() + 1 <= 52,
                p1 >= 1,
        ;
    }
}

/// The key splits around any prefix: the digits up to `m` dominate.
proof fn lemma_key_split(v: Seq<u8>, m: int)
    requires
        0 <= m <= v.len(),
        forall|k: int| 0 <= k < v.len() ==> (#[trigger] v[k]) < 52,
    ensures
        spec_key_digits(v.take(m)) * vstd::arithmetic::power::pow(53, (v.len() - m) as nat)
            <= spec_key_digits(v) < (spec_key_digits(v.take(m)) + 1)
            * vstd::arithmetic::power::pow(53, (v.len() - m) as nat),
    decreases v.len(),
{
    let p = vstd::arithmetic::power::pow(53, (v.len() - m) as nat);
    vstd::arithmetic::power::lemma_pow_positive(53, (v.len() - m) as nat);
    if m == v.len() {
        assert(v.take(m) =~= v);
        assert(p == 1) by {
            reveal(vstd::arithmetic::power::pow);
        }
    } else {
        let dl = v.drop_last();
        assert forall|k: int| 0 <= k < dl.len() implies (#[trigger] dl[k]) < 52 by {
            assert(dl[k] == v[k]);
        }
        lemma_key_split(dl, m);
        assert(dl.take(m) =~= v.take(m));
        let p1 = vstd::arithmetic::power::pow(53, (dl.len() - m) as nat);
        vstd::arithmetic::power::lemma_pow_positive(53, (dl.len() - m) as nat);
        assert(p == 53 * p1) by {
            reveal(vstd::arithmetic::power::pow);
        }
        let t = spec_key_digits(v.take(m));
        assert(spec_key_digits(v) == spec_key_digits(dl) * 53 + (v.last() + 1));
        assert(t * p <= spec_key_digits(dl) * 53) by (nonlinear_arith)
            requires
                t * p1 <= spec_key_digits(dl),
                p == 53 * p1,
        ;
        assert(spec_key_digits(dl) * 53 + (v.last() + 1) < (t + 1) * p) by (nonlinear_arith)
            requires
                spec_key_digits(dl) <= (t + 1) * p1 - 1,
                v.last() + 1 <= 52,
                p == 53 * p1,
                p1 >= 1,
        ;
    }
}

/// A digit string that first differs upward carries a larger key.
proof fn lemma_key_dominates(a: Seq<u8>, b: Seq<u8>, m: int)
    requires
        a.len() == b.len(),
        0 <= m < a.len(),
        forall|k: int| 0 <= k < a.len() ==> (#[trigger] a[k]) < 52,
        forall|k: int| 0 <= k < b.len() ==> (#[trigger] b[k]) < 52,
        forall|k: int| 0 <= k < m ==> a[k] == b[k],
        a[m] > b[m],
    ensures
        spec_key_digits(a) > spec_key_digits(b),
{
    lemma_key_split(a, m + 1);
    lemma_key_split(b, m + 1);
    let p = vstd::arithmetic::power::pow(53, (a.len() - m - 1) as nat);
    vstd::arithmetic::power::lemma_pow_positive(53, (a.len() - m - 1) as nat);
    assert(a.take(m + 1).drop_last() =~= a.take(m));
    assert(b.take(m + 1).drop_last() =~= b.take(m));
    assert(a.take(m) =~= b.take(m));
    assert(spec_key_digits(a.take(m + 1)) >= spec_key_digits(b.take(m + 1)) + 1);
    assert(spec_key_digits(a) > spec_key_digits(b)) by (nonlinear_arith)
        requires
            spec_key_digits(a.take(m + 1)) >= spec_key_digits(b.take(m + 1)) + 1,
            spec_key_digits(a.take(m + 1)) * p <= spec_key_digits(a),
            spec_key_digits(b) < (spec_key_digits(b.take(m + 1)) + 1) * p,
            p >= 1,
    ;
}

/// Yields every `n`-card hand disjoint from a removed set, as sorted
/// identifier tuples, in ascending lexicographic order.
pub struct HandIterator {
    pub n: usize,
    pub removed: Hand,
    pub current: Vec<u8>,
    pub done: bool,
}

impl HandIterator {
    /// The iterator is well formed: the cursor holds `n` strictly
    /// increasing free card identifiers while it is live.
    pub open spec fn wf(self) -> bool {
        &&& self.removed.wf()
        &&& self.n <= 52
        &&& !self.done ==> {
            &&& self.current@.len() == self.n
            &&& forall|k: int|
                0 <= k < self.n ==> (#[trigger] self.current@[k]) < 52 && !self.removed.has(
                    self.current@[k] as u64,
                )
            &&& forall|k1: int, k2: int|
                0 <= k1 < k2 < self.n ==> self.current@[k1] < self.current@[k2]
        }
    }

    /// Start enumerating `n`-card combinations avoiding `removed`.
    pub fn new(n: usize, removed: Hand) -> (it: HandIterator)
        requires
            removed.wf(),
            n <= 52,
        ensures
            it.wf(),
            it.removed == removed,
            it.n == n,
    {
        let mut it = HandIterator { n, removed, current: Vec::new(), done: false };
        match fill_free(removed, Vec::new(), n, 0) {
            Some(v) => {
                it.current = v;
            },
            None => {
                it.done = true;
            },
        }
        it
    }

    /// The next combination, or nothing once the space is exhausted.
    pub fn next(&mut self) -> (res: Option<Hand>)
        requires
            old(self).wf(),
        ensures
            final(self).wf(),
            final(self).removed == old(self).removed,
            final(self).n == old(self).n,
            old(self).done || final(self).done || spec_key_digits(final(self).current@)
                > spec_key_digits(old(self).current@),
            match res {
                Some(h) => {
                    &&& h.wf()
                    &&& h.size() == old(self).n
                    &&& h.disjoint(old(self).removed)
                    &&& forall|i: u64|
                        i < 52 ==> (h.has(i) == exists|k: int|
                            0 <= k < old(self).current@.len() && old(self).current@[k] == i)
                },
                None => old(self).done && final(self).done,
            },
    {
        if self.done {
            return None;
        }
        let h = hand_of_ids(&self.current);
        proof {
            lemma_key_bounds(self.current@);
        }
        self.advance();
        Some(h)
    }

    /// Step the cursor to the next combination in lexicographic order:
    /// the cursor either exhausts or strictly increases its key, so
    /// iteration makes progress.
    fn advance(&mut self)
        requires
            old(self).wf(),
            !old(self).done,
        ensures
            final(self).wf(),
            final(self).removed == old(self).removed,
            final(self).n == old(self).n,
            final(self).done || spec_key_digits(final(self).current@) > spec_key_digits(
                old(self).current@,
            ),
    {
        if self.n == 0 {
            self.done = true;
            return;
        }
        let mut i: usize = self.n;
        while i > 0
            invariant
                i <= self.n,
                self.wf(),
                !self.done,
                self.removed == old(self).removed,
                self.n == old(self).n,
                self.current == old(self).current,
            decreases i,
        {
            i = i - 1;
            let bumped = self.current[i];
            if bumped >= 51 {
                continue;
            }
            let mut prefix: Vec<u8> = Vec::new();
            let mut k: usize = 0;
            while k < i
                invariant
                    k <= i,
                    i < self.n,
                    self.wf(),
                    !self.done,
                    self.removed == old(self).removed,
                    self.n == old(self).n,
                    prefix@.len() == k,
                    forall|j: int| 0 <= j < k ==> prefix@[j] == self.current@[j],
                decreases i - k,
            {
                prefix.push(self.current[k]);
                k = k + 1;
            }
            match fill_free(self.removed, prefix, self.n, bumped + 1) {
                Some(v) => {
                    proof {
                        lemma_key_dominates(v@, self.current@, i as int);
                    }
                    self.current = v;
                    return;
                },
                None => {},
            }
        }
        self.done = true;
    }
}

/// Extend a sorted prefix of free cards with the smallest free cards
/// at or above `start`, until it holds `n` cards.
fn fill_free(removed: Hand, prefix: Vec<u8>, n: usize, start: u8) -> (res: Option<Vec<u8>>)
    requires
        removed.wf(),
        n <= 52,
        start <= 52,
        prefix@.len() <= n,
        forall|k: int|
            0 <= k < prefix@.len() ==> (#[trigger] prefix@[k]) < 52 && !removed.has(
                prefix@[k] as u64,
            ),
        forall|k1: int, k2: int| 0 <= k1 < k2 < prefix@.len() ==> prefix@[k1] < prefix@[k2],
        forall|k: int| 0 <= k < prefix@.len() ==> prefix@[k] < start,
    ensures
        match res {
            Some(v) => {
                &&& v@.len() == n
                &&& forall|k: int|
                    0 <= k < n ==> (#[trigger] v@[k]) < 52 && !removed.has(v@[k] as u64)
                &&& forall|k1: int, k2: int| 0 <= k1 < k2 < n ==> v@[k1] < v@[k2]
                &&& forall|k: int| 0 <= k < prefix@.len() ==> v@[k] == prefix@[k]
                &&& forall|k: int| prefix@.len() <= k < n ==> (#[trigger] v@[k]) >= start
            },
            None => true,
        },
{
    let ghost pre = prefix@;
    let ghost plen = prefix@.len() as int;
    let mut v = prefix;
    let mut c: u8 = start;
    while v.len() < n
        invariant
            removed.wf(),
            n <= 52,
            0 <= plen <= v@.len() <= n,
            start <= c <= 52,
            forall|k: int| 0 <= k < v@.len() ==> (#[trigger] v@[k]) < 52 && !removed.has(
                v@[k] as u64,
            ),
            forall|k1: int, k2: int| 0 <= k1 < k2 < v@.len() ==> v@[k1] < v@[k2],
            forall|k: int| 0 <= k < plen ==> v@[k] == pre[k],
            forall|k: int| plen <= k < v@.len() ==> (#[trigger] v@[k]) >= start,
            forall|k: int| 0 <= k < v@.len() ==> v@[k] < c,
        decreases 52 - c, n - v.len(),
    {
        if c >= 52 {
            return None;
        }
        if !removed.contains(Card::new(c)) {
            let ghost vv = v@;
            v.push(c);
            proof {
                assert(v@ == vv.push(c));
                assert forall|k: int| plen <= k < v@.len() implies (#[trigger] v@[k]) >= start by {
                    if k < vv.len() {
                        assert(v@[k] == vv.push(c)[k]);
                        assert(vv.push(c)[k] == vv[k]);
                    } else {
                        assert(v@[k] == c);
                    }
                }
            }
        }
        c = c + 1;
    }
    Some(v)
}

/// Does the hand hold any card strictly below `c`?
pub open spec fn has_below(h: Hand, c: u64) -> bool {
    exists|m: u64| m < c && h.has(m)
}

/// Holding a card below a bound persists as the bound grows.
proof fn lemma_has_below_mono(h: Hand, c1: u64, c2: u64)
    requires
        has_below(h, c1),
        c1 <= c2,
    ensures
        has_below(h, c2),
{
    let m = choose|m: u64| m < c1 && h.has(m);
    assert(m < c2 && h.has(m));
}

/// Is `h` one of the combinations the enumerator promises: `n` cards,
/// none used by `removed`, all at or above `start`?
pub open spec fn spec_combo(h: Hand, removed: Hand, n: int, start: int) -> bool {
    &&& h.wf()
    &&& h.size() == n
    &&& h.disjoint(removed)
    &&& forall|i: u64| i < 52 && (i as int) < start ==> !h.has(i)
}

/// Every `n`-card hand disjoint from `removed` whose cards all sit at
/// or above `start`, materialized as a vector: each qualifying hand
/// appears exactly once.
pub fn combos_from(removed: Hand, n: u8, start: u8) -> (res: Vec<Hand>)
    requires
        removed.wf(),
        n <= 7,
    ensures
        forall|k: int|
            0 <= k < res@.len() ==> spec_combo(#[trigger] res@[k], removed, n as int, start as int),
        forall|k1: int, k2: int| 0 <= k1 < k2 < res@.len() ==> res@[k1] != res@[k2],
        forall|h: Hand| spec_combo(h, removed, n as int, start as int) ==> res@.contains(h),
    decreases n,
{
    let mut out: Vec<Hand> = Vec::new();
    if n == 0 {
        out.push(Hand::empty());
        proof {
            assert forall|h: Hand| spec_combo(h, removed, 0, start as int) implies out@.contains(
                h,
            ) by {
                lemma_count_zero(h.spec_bits(), 52);
                crate::cards::hand::lemma_hand_extensional(h, out@[0]);
                assert(out@[0] == h);
            }
        }
        return out;
    }
    let mut c: u8 = start;
    while c < 52
        invariant
            removed.wf(),
            1 <= n <= 7,
            start <= c,
            forall|k: int|
                0 <= k < out@.len() ==> spec_combo(
                    #[trigger] out@[k],
                    removed,
                    n as int,
                    start as int,
                ),
            forall|k: int| 0 <= k < out@.len() ==> has_below(#[trigger] out@[k], c as u64),
            forall|k1: int, k2: int| 0 <= k1 < k2 < out@.len() ==> out@[k1] != out@[k2],
            forall|h: Hand|
                spec_combo(h, removed, n as int, start as int) && has_below(h, c as u64)
                    ==> out@.contains(h),
        decreases 52 - c,
    {
        let card = Card::new(c);
        let free = !removed.contains(card);
        let ghost before = out@;
        if free {
            let rest = combos_from(removed, n - 1, c + 1);
            let mut j: usize = 0;
            while j < rest.len()
                invariant
                    j <= rest@.len(),
                    removed.wf(),
                    1 <= n <= 7,
                    start <= c < 52,
                    card.wf(),
                    card.spec_id() == c,
                    !removed.has(c as u64),
                    forall|k: int|
                        0 <= k < rest@.len() ==> spec_combo(
                            #[trigger] rest@[k],
                            removed,
                            n as int - 1,
                            c as int + 1,
                        ),
                    forall|k1: int, k2: int| 0 <= k1 < k2 < rest@.len() ==> rest@[k1] != rest@[k2],
                    out@.len() == before.len() + j,
                    forall|k: int| 0 <= k < before.len() ==> out@[k] == before[k],
                    forall|jj: int|
                        0 <= jj < j ==> out@[before.len() + jj] == spec_with(
                            #[trigger] rest@[jj],
                            c as u64,
                        ),
                decreases rest@.len() - j,
            {
                let t = rest[j];
                proof {
                    assert(!t.has(c as u64));
                }
                let h = t.with(card);
                proof {
                    assert(h == spec_with(t, c as u64));
                }
                out.push(h);
                j = j + 1;
            }
            proof {
                lemma_batch_ok(before, out@, rest@, removed, n as int, start as int, c as u64);
                assert forall|h: Hand|
                    spec_combo(h, removed, n as int, start as int) && has_below(
                        h,
                        (c + 1) as u64,
                    ) implies out@.contains(h) by {
                    if has_below(h, c as u64) {
                        assert(before.contains(h));
                        let k = choose|k: int| 0 <= k < before.len() && before[k] == h;
                        assert(out@[k] == h);
                    } else {
                        let m = choose|m: u64| m < c + 1 && h.has(m);
                        if m < c {
                            assert(has_below(h, c as u64));
                        }
                        assert(h.has(c as u64));
                        let t = spec_without(h, c as u64);
                        crate::cards::hand::lemma_spec_without(h, c as u64);
                        assert(t.size() == n - 1);
                        assert forall|i: u64| i < 52 implies !(t.has(i) && removed.has(i)) by {}
                        assert forall|i: u64| i < 52 && (i as int) < c + 1 implies !t.has(i) by {
                            if i < c {
                                if h.has(i) {
                                    assert(has_below(h, c as u64));
                                }
                            }
                        }
                        assert(spec_combo(t, removed, n as int - 1, c as int + 1));
                        assert(rest@.contains(t));
                        let jj = choose|jj: int| 0 <= jj < rest@.len() && rest@[jj] == t;
                        assert(out@[before.len() + jj] == spec_with(rest@[jj], c as u64));
                        assert(spec_with(t, c as u64) == h);
                        assert(out@[before.len() + jj] == h);
                    }
                }
            }
        } else {
            proof {
                assert forall|h: Hand|
                    spec_combo(h, removed, n as int, start as int) && has_below(
                        h,
                        (c + 1) as u64,
                    ) implies out@.contains(h) by {
                    if has_below(h, c as u64) {
                        assert(before.contains(h));
                    } else {
                        let m = choose|m: u64| m < c + 1 && h.has(m);
                        if m < c {
                            assert(has_below(h, c as u64));
                        }
                        assert(h.has(c as u64));
                        assert(removed.has(c as u64));
                        assert(!(h.has(c as u64) && removed.has(c as u64)));
                    }
                }
                assert forall|k: int| 0 <= k < out@.len() implies has_below(
                    #[trigger] out@[k],
                    (c + 1) as u64,
                ) by {
                    lemma_has_below_mono(out@[k], c as u64, (c + 1) as u64);
                }
            }
        }
        c = c + 1;
    }
    proof {
        assert forall|h: Hand| spec_combo(h, removed, n as int, start as int) implies out@.contains(
            h,
        ) by {
            crate::cards::hand::lemma_first_card(h, 52);
            let m = choose|m: u64|
                m < 52 && (#[trigger] h.has(m)) && (forall|i: u64| i < m ==> !h.has(i));
            assert(has_below(h, 52u64));
        }
    }
    out
}

/// After one batch of pushes, the enumerator's invariants hold again:
/// the new entries are the rest-combinations extended with card `c`,
/// so they qualify, carry a card below `c + 1`, and collide neither
/// with the old entries nor with each other.
proof fn lemma_batch_ok(
    before: Seq<Hand>,
    now: Seq<Hand>,
    rest: Seq<Hand>,
    removed: Hand,
    n: int,
    start: int,
    c: u64,
)
    requires
        removed.wf(),
        1 <= n <= 7,
        start <= c < 52,
        c + 1 <= u64::MAX,
        !removed.has(c),
        forall|k: int| 0 <= k < rest.len() ==> spec_combo(#[trigger] rest[k], removed, n - 1, c + 1),
        forall|k1: int, k2: int| 0 <= k1 < k2 < rest.len() ==> rest[k1] != rest[k2],
        forall|k: int| 0 <= k < before.len() ==> spec_combo(#[trigger] before[k], removed, n, start),
        forall|k: int| 0 <= k < before.len() ==> has_below(#[trigger] before[k], c),
        forall|k1: int, k2: int| 0 <= k1 < k2 < before.len() ==> before[k1] != before[k2],
        now.len() == before.len() + rest.len(),
        forall|k: int| 0 <= k < before.len() ==> now[k] == before[k],
        forall|jj: int| 0 <= jj < rest.len() ==> now[before.len() + jj] == spec_with(
            #[trigger] rest[jj],
            c,
        ),
    ensures
        forall|k: int| 0 <= k < now.len() ==> spec_combo(#[trigger] now[k], removed, n, start),
        forall|k: int| 0 <= k < now.len() ==> has_below(#[trigger] now[k], (c + 1) as u64),
        forall|k1: int, k2: int| 0 <= k1 < k2 < now.len() ==> now[k1] != now[k2],
{
    assert forall|jj: int| 0 <= jj < rest.len() implies spec_combo(
        spec_with(#[trigger] rest[jj], c),
        removed,
        n,
        start,
    ) && spec_with(rest[jj], c).has(c) && (forall|i: u64|
        i < 52 && i < c ==> !spec_with(rest[jj], c).has(i)) by {
        let t = rest[jj];
        assert(!t.has(c));
        crate::cards::hand::lemma_spec_with(t, c);
        assert(spec_with(t, c).size() == n);
        assert(spec_with(t, c).has(c));
        assert forall|i: u64| i < 52 && i < c implies !spec_with(t, c).has(i) by {
            assert(spec_with(t, c).has(i) == (t.has(i) || i == c));
        }
        assert forall|i: u64| i < 52 implies !(spec_with(t, c).has(i) && removed.has(i)) by {
            assert(spec_with(t, c).has(i) == (t.has(i) || i == c));
        }
        assert forall|i: u64| i < 52 && (i as int) < start implies !spec_with(t, c).has(i) by {
            assert(spec_with(t, c).has(i) == (t.has(i) || i == c));
        }
    }
    assert forall|k: int| 0 <= k < now.len() implies spec_combo(
        #[trigger] now[k],
        removed,
        n,
        start,
    ) by {
        if k >= before.len() {
            let t = rest[k - before.len()];
            assert(now[k] == spec_with(t, c));
            assert(spec_combo(spec_with(t, c), removed, n, start));
        }
    }
    assert forall|k: int| 0 <= k < now.len() implies has_below(
        #[trigger] now[k],
        (c + 1) as u64,
    ) by {
        if k < before.len() {
            lemma_has_below_mono(before[k], c, (c + 1) as u64);
        } else {
            let t = rest[k - before.len()];
            assert(now[k] == spec_with(t, c));
            assert(now[k].has(c) && c < c + 1);
        }
    }
    assert forall|k1: int, k2: int| 0 <= k1 < k2 < now.len() implies now[k1] != now[k2] by {
        if k1 < before.len() && k2 >= before.len() {
            let m = choose|m: u64| m < c && before[k1].has(m);
            let t2 = rest[k2 - before.len()];
            assert(now[k2] == spec_with(t2, c));
            assert(!now[k2].has(m));
            assert(now[k1].has(m));
        } else if k1 >= before.len() {
            let t1 = rest[k1 - before.len()];
            let t2 = rest[k2 - before.len()];
            if now[k1] == now[k2] {
                crate::cards::hand::lemma_spec_with_injective(t1, t2, c);
            }
        }
    }
}

/// The hand holding exactly the given sorted distinct card identifiers.
pub fn hand_of_ids(ids: &Vec<u8>) -> (h: Hand)
    requires
        forall|k: int| 0 <= k < ids@.len() ==> (#[trigger] ids@[k]) < 52,
        forall|k1: int, k2: int| 0 <= k1 < k2 < ids@.len() ==> ids@[k1] < ids@[k2],
    ensures
        h.wf(),
        h.size() == ids@.len(),
        forall|i: u64| i < 52 ==> (h.has(i) == exists|k: int|
            0 <= k < ids@.len() && ids@[k] == i),
{
    let mut h = Hand::empty();
    let mut k: usize = 0;
    while k < ids.len()
        invariant
            k <= ids@.len(),
            h.wf(),
            h.size() == k,
            forall|j: int| 0 <= j < ids@.len() ==> (#[trigger] ids@[j]) < 52,
            forall|k1: int, k2: int| 0 <= k1 < k2 < ids@.len() ==> ids@[k1] < ids@[k2],
            forall|i: u64| i < 52 ==> (h.has(i) == exists|j: int| 0 <= j < k && ids@[j] == i),
        decreases ids@.len() - k,
    {
        let c = ids[k];
        let card = Card::new(c);
        proof {
            assert(!h.has(c as u64));
        }
        let next = h.with(card);
        proof {
            assert forall|i: u64| i < 52 implies (spec_has(
                h.spec_bits() | (1u64 << (c as u64)),
                i,
            ) == (spec_has(h.spec_bits(), i) || i == c as u64)) by {
                assert(spec_has(next.spec_bits(), i) == next.has(i));
            }
            lemma_with_size(h.spec_bits(), c as u64, 52);
            assert forall|i: u64| i < 52 implies (next.has(i) == exists|j: int|
                0 <= j < k + 1 && ids@[j] == i) by {
                if next.has(i) {
                    if i == c {
                        assert(ids@[k as int] == i);
                    } else {
                        let j = choose|j: int| 0 <= j < k && ids@[j] == i;
                        assert(0 <= j < k + 1 && ids@[j] == i);
                    }
                }
            }
        }
        h = next;
        k = k + 1;
    }
    h
}

} // verus!
