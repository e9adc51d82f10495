//! Greedy selection: the smallest number not yet excluded is chosen, and every
//! number that differs from it in at most one digit position is excluded.

use vstd::prelude::*;
use crate::digits::{
    BASE, close, digit, lemma_change_by_arithmetic, lemma_change_in_range, lemma_change_is_close,
    lemma_close_is_change, lemma_differing_self, lemma_digit_by_division, lemma_weight_grows, lemma_weight_positive,
    lemma_weights_increase, weight, with_digit_changed,
};
use crate::sieve::Sieve;

verus! {

/// Some number of `chosen` differs from `x` in at most one of `n` positions.
pub open spec fn covered(x: nat, chosen: Seq<nat>, n: nat) -> bool {
    exists|k: int| 0 <= k < chosen.len() && close(x, #[trigger] chosen[k], n)
}

/// `x` is what the greedy scan picks after `prefix`: the smallest number of
/// the `n`-digit domain that `prefix` does not cover.
pub open spec fn is_greedy_choice(prefix: Seq<nat>, x: nat, n: nat) -> bool {
    &&& x < weight(n)
    &&& !covered(x, prefix, n)
    &&& forall|y: nat| y < x ==> covered(y, prefix, n)
}

/// `s` is the complete greedy selection of the `n`-digit domain: each element
/// is the greedy choice after the elements before it, and together they cover
/// the whole domain.
pub open spec fn is_greedy_code(s: Seq<nat>, n: nat) -> bool {
    &&& forall|k: int| 0 <= k < s.len() ==> is_greedy_choice(s.take(k), #[trigger] s[k], n)
    &&& forall|x: nat| x < weight(n) ==> covered(x, s, n)
}

/// The numbers within one single-digit change of `c`, counting the changes at
/// positions below `i`, and at position `i` to digits below `e`.
pub open spec fn reached(x: nat, c: nat, i: nat, e: nat) -> bool {
    exists|p: nat, d: nat|
        (p < i || (p == i && d < e)) && d < BASE && x == #[trigger] with_digit_changed(c, p, d)
}

/// `powers` holds `BASE^0, BASE^1, ...`, one weight per digit position.
pub open spec fn are_weights(powers: Seq<usize>) -> bool {
    forall|i: int| 0 <= i < powers.len() ==> #[trigger] powers[i] == weight(i as nat)
}

pub proof fn lemma_covered_push(x: nat, chosen: Seq<nat>, c: nat, n: nat)
    ensures
        covered(x, chosen.push(c), n) == (covered(x, chosen, n) || close(x, c, n)),
{
    let s = chosen.push(c);
    if covered(x, chosen, n) {
        let k = choose|k: int| 0 <= k < chosen.len() && close(x, #[trigger] chosen[k], n);
        assert(s[k] == chosen[k]);
    }
    if close(x, c, n) {
        assert(s[chosen.len() as int] == c);
    }
    if covered(x, s, n) {
        let k = choose|k: int| 0 <= k < s.len() && close(x, #[trigger] s[k], n);
        if k < chosen.len() {
            assert(s[k] == chosen[k]);
        }
    }
}

/// The numbers `reached` by all single-digit changes of `c` are those close to it.
proof fn lemma_reached_all(x: nat, c: nat, n: nat)
    requires
        n >= 1,
        x < weight(n),
        c < weight(n),
    ensures
        reached(x, c, n, 0) == close(x, c, n),
{
    if reached(x, c, n, 0) {
        let (p, d) = choose|p: nat, d: nat|
            (p < n || (p == n && d < 0)) && d < BASE && x == #[trigger] with_digit_changed(c, p, d);
        lemma_change_is_close(c, p, d, n);
    }
    if close(x, c, n) {
        lemma_close_is_change(x, c, n);
        let (p, d) = choose|p: nat, d: nat| p < n && d < BASE && x == #[trigger] with_digit_changed(c, p, d);
        assert((p < n || (p == n && d < 0)) && d < BASE && x == with_digit_changed(c, p, d));
    }
}

/// Computes `BASE^n_digits`, or `None` when it does not fit in a `usize`.
pub fn domain_size(n_digits: usize) -> (r: Option<usize>)
    ensures
        r is Some <==> weight(n_digits as nat) <= usize::MAX,
        r matches Some(m) ==> m == weight(n_digits as nat),
{
    let mut size: usize = 1;
    let mut i: usize = 0;
    while i < n_digits
        invariant
            i <= n_digits,
            size == weight(i as nat),
        decreases n_digits - i,
    {
        match size.checked_mul(BASE) {
            Some(s) => {
                size = s;
            },
            None => {
                proof {
                    lemma_weight_grows(i as nat);
                    lemma_weights_increase(i as nat + 1, n_digits as nat);
                }
                return None;
            },
        }
        i = i + 1;
    }
    Some(size)
}

/// The weights `BASE^0 .. BASE^(n_digits - 1)` of the digit positions.
pub fn digit_weights(n_digits: usize) -> (powers: Vec<usize>)
    requires
        weight(n_digits as nat) <= usize::MAX,
    ensures
        powers@.len() == n_digits,
        are_weights(powers@),
{
    let mut powers: Vec<usize> = Vec::with_capacity(n_digits);
    let mut power: usize = 1;
    let mut i: usize = 0;
    while i < n_digits
        invariant
            i <= n_digits,
            weight(n_digits as nat) <= usize::MAX,
            power == weight(i as nat),
            powers@.len() == i,
            are_weights(powers@),
        decreases n_digits - i,
    {
        powers.push(power);
        proof {
            lemma_weight_grows(i as nat);
            lemma_weights_increase(i as nat + 1, n_digits as nat);
        }
        power = power * BASE;
        i = i + 1;
    }
    powers
}

/// Excludes every number that differs from `current` in at most one digit
/// position: for each position, `current` with that digit set to each value.
pub fn mark_variations_as_similar(powers: &Vec<usize>, too_similar: &mut Sieve, current: usize)
    requires
        powers@.len() >= 1,
        are_weights(powers@),
        old(too_similar).wf(),
        old(too_similar)@.len() == weight(powers@.len()),
        current < old(too_similar)@.len(),
    ensures
        final(too_similar).wf(),
        final(too_similar)@.len() == old(too_similar)@.len(),
        forall|x: int|
            0 <= x < old(too_similar)@.len() ==> #[trigger] final(too_similar)@[x] == (old(
                too_similar,
            )@[x] || close(x as nat, current as nat, powers@.len())),
{
    let ghost start = too_similar@;
    let ghost n = powers@.len();
    let ghost c = current as nat;
    proof {
        too_similar.lemma_len_fits();
    }
    let mut pos: usize = 0;
    while pos < powers.len()
        invariant
            pos <= n,
            n == powers@.len(),
            c == current as nat,
            are_weights(powers@),
            too_similar.wf(),
            too_similar@.len() == start.len(),
            start.len() == weight(n),
            start.len() <= usize::MAX,
            current < start.len(),
            forall|x: int|
                0 <= x < start.len() ==> #[trigger] too_similar@[x] == (start[x] || reached(
                    x as nat,
                    c,
                    pos as nat,
                    0,
                )),
        decreases n - pos,
    {
        let digit_factor = powers[pos];
        proof {
            lemma_weight_positive(pos as nat);
            lemma_digit_by_division(c, pos as nat);
            lemma_change_by_arithmetic(c, pos as nat, 0);
        }
        let current_digit: usize = (current / digit_factor) % BASE;
        let current_level: usize = current - current_digit * digit_factor;
        let mut change_to_digit: usize = 0;
        while change_to_digit < BASE
            invariant
                pos < n,
                n == powers@.len(),
                c == current as nat,
                are_weights(powers@),
                digit_factor == weight(pos as nat),
                current_level == c - digit(c, pos as nat) * weight(pos as nat),
                too_similar.wf(),
                too_similar@.len() == start.len(),
                start.len() == weight(n),
                start.len() <= usize::MAX,
                current < start.len(),
                change_to_digit <= BASE,
                forall|x: int|
                    0 <= x < start.len() ==> #[trigger] too_similar@[x] == (start[x] || reached(
                        x as nat,
                        c,
                        pos as nat,
                        change_to_digit as nat,
                    )),
            decreases BASE - change_to_digit,
        {
            let ghost d = change_to_digit as nat;
            proof {
                lemma_change_by_arithmetic(c, pos as nat, d);
                lemma_change_in_range(c, pos as nat, d, n);
                assert(d * weight(pos as nat) <= with_digit_changed(c, pos as nat, d));
            }
            let with_changed_digit: usize = current_level + change_to_digit * digit_factor;
            let ghost before = too_similar@;
            too_similar.mark_excluded(with_changed_digit);
            proof {
                let y = with_changed_digit as nat;
                assert(y == with_digit_changed(c, pos as nat, d));
                assert forall|x: int| 0 <= x < start.len() implies #[trigger] too_similar@[x] == (
                start[x] || reached(x as nat, c, pos as nat, d + 1)) by {
                    if x == y {
                        assert(reached(x as nat, c, pos as nat, d + 1));
                    }
                    if reached(x as nat, c, pos as nat, d + 1) && x != y {
                        let (p, e) = choose|p: nat, e: nat|
                            (p < pos || (p == pos && e < d + 1)) && e < BASE && x as nat
                                == #[trigger] with_digit_changed(c, p, e);
                        assert(reached(x as nat, c, pos as nat, d));
                    }
                    assert(before[x] == (start[x] || reached(x as nat, c, pos as nat, d)));
                }
            }
            change_to_digit = change_to_digit + 1;
        }
        proof {
            assert forall|x: int| 0 <= x < start.len() implies #[trigger] too_similar@[x] == (
            start[x] || reached(x as nat, c, (pos + 1) as nat, 0)) by {
                if reached(x as nat, c, (pos + 1) as nat, 0) {
                    let (p, e) = choose|p: nat, e: nat|
                        (p < pos + 1 || (p == pos + 1 && e < 0)) && e < BASE && x as nat
                            == #[trigger] with_digit_changed(c, p, e);
                    assert(reached(x as nat, c, pos as nat, BASE as nat));
                }
                if reached(x as nat, c, pos as nat, BASE as nat) {
                    let (p, e) = choose|p: nat, e: nat|
                        (p < pos || (p == pos && e < BASE)) && e < BASE && x as nat
                            == #[trigger] with_digit_changed(c, p, e);
                    assert(reached(x as nat, c, (pos + 1) as nat, 0));
                }
            }
        }
        pos = pos + 1;
    }
    proof {
        assert forall|x: int| 0 <= x < start.len() implies #[trigger] too_similar@[x] == (start[x]
            || close(x as nat, c, n)) by {
            lemma_reached_all(x as nat, c, n);
        }
    }
}

/// The greedy enumeration of the `n`-digit domain, one choice per step.
///
/// The state is the sieve of excluded numbers, the cursor below which every
/// number is excluded, and the numbers chosen so far.
pub struct Selector {
    sieve: Sieve,
    powers: Vec<usize>,
    cursor: usize,
    count: usize,
    chosen: Ghost<Seq<nat>>,
}

impl Selector {
    /// The digit width of the domain.
    pub closed spec fn n_digits(&self) -> nat {
        self.powers@.len()
    }

    /// The numbers chosen so far, in the order of choice.
    pub closed spec fn chosen(&self) -> Seq<nat> {
        self.chosen@
    }

    pub closed spec fn wf(&self) -> bool {
        let n = self.powers@.len();
        let s = self.chosen@;
        let bits = self.sieve@;
        &&& n >= 1
        &&& are_weights(self.powers@)
        &&& self.sieve.wf()
        &&& bits.len() == weight(n)
        &&& self.cursor <= bits.len()
        &&& forall|x: int| 0 <= x < self.cursor ==> bits[x]
        &&& forall|x: int| 0 <= x < bits.len() ==> bits[x] == covered(x as nat, s, n)
        &&& forall|k: int| 0 <= k < s.len() ==> s[k] <= self.cursor
        &&& s.len() <= self.cursor + 1
        &&& s.len() <= bits.len()
        &&& s.len() > 0 ==> s.last() == self.cursor
        &&& forall|k: int| 0 <= k < s.len() ==> is_greedy_choice(s.take(k), #[trigger] s[k], n)
        &&& self.count == s.len()
    }

    /// A selector over the numbers of `n_digits` digits, none chosen yet; `None`
    /// when `n_digits` is 0 or `BASE^n_digits` does not fit in a `usize`.
    pub fn new(n_digits: usize) -> (r: Option<Selector>)
        ensures
            r is Some <==> (n_digits >= 1 && weight(n_digits as nat) <= usize::MAX),
            r matches Some(sel) ==> sel.wf() && sel.n_digits() == n_digits && sel.chosen()
                =~= Seq::<nat>::empty(),
    {
        if n_digits == 0 {
            return None;
        }
        match domain_size(n_digits) {
            None => None,
            Some(size) => {
                let powers = digit_weights(n_digits);
                let sieve = Sieve::new(size);
                Some(Selector { sieve, powers, cursor: 0, count: 0, chosen: Ghost(Seq::empty()) })
            },
        }
    }

    /// How many numbers have been chosen so far.
    pub fn count(&self) -> (r: usize)
        requires
            self.wf(),
        ensures
            r == self.chosen().len(),
    {
        self.count
    }

    /// Chooses the next number: the smallest one that no earlier choice
    /// covers. `None` once the chosen numbers cover the whole domain.
    pub fn next_selected(&mut self) -> (r: Option<usize>)
        requires
            old(self).wf(),
        ensures
            final(self).wf(),
            final(self).n_digits() == old(self).n_digits(),
            final(self).chosen().len() <= weight(final(self).n_digits()),
            match r {
                Some(c) => is_greedy_choice(old(self).chosen(), c as nat, old(self).n_digits())
                    && final(self).chosen() == old(self).chosen().push(c as nat),
                None => final(self).chosen() == old(self).chosen() && is_greedy_code(
                    old(self).chosen(),
                    old(self).n_digits(),
                ),
            },
    {
        let ghost n = self.powers@.len();
        let ghost s = self.chosen@;
        let ghost bits = self.sieve@;
        match self.sieve.next_unexcluded_from(self.cursor) {
            None => {
                proof {
                    assert forall|x: nat| x < weight(n) implies covered(x, s, n) by {
                        assert(bits[x as int]);
                    }
                }
                None
            },
            Some(c) => {
                proof {
                    assert(!covered(c as nat, s, n)) by {
                        assert(!bits[c as int]);
                    }
                    assert forall|y: nat| y < c implies covered(y, s, n) by {
                        assert(bits[y as int]);
                    }
                    if s.len() > 0 {
                        lemma_differing_self(s.last(), n);
                        assert(close(s.last(), s[s.len() - 1], n));
                        assert(bits[self.cursor as int]);
                    }
                }
                mark_variations_as_similar(&self.powers, &mut self.sieve, c);
                self.cursor = c;
                self.count = self.count + 1;
                self.chosen = Ghost(s.push(c as nat));
                proof {
                    let s2 = s.push(c as nat);
                    assert forall|x: int| 0 <= x < self.sieve@.len() implies self.sieve@[x]
                        == covered(x as nat, s2, n) by {
                        lemma_covered_push(x as nat, s, c as nat, n);
                    }
                    assert forall|k: int| 0 <= k < s2.len() implies is_greedy_choice(
                        s2.take(k),
                        #[trigger] s2[k],
                        n,
                    ) by {
                        if k < s.len() {
                            assert(s2.take(k) =~= s.take(k));
                        } else {
                            assert(s2.take(k) =~= s);
                        }
                    }
                }
                Some(c)
            },
        }
    }
}

} // verus!
