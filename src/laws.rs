//! What holds of every complete greedy selection.

use vstd::prelude::*;
use crate::digits::{
    BASE, close, differing, lemma_differing_self, lemma_differing_symmetric,
    lemma_same_digits_equal, lemma_weight_grows, weight,
};
use crate::select::{covered, is_greedy_choice, is_greedy_code};
use crate::render::lines_of;

verus! {

/// Any two distinct places of a complete greedy selection hold numbers that
/// differ in at least two digit positions.
pub proof fn lemma_code_distance_two(s: Seq<nat>, n: nat, j: int, k: int)
    requires
        is_greedy_code(s, n),
        0 <= j < s.len(),
        0 <= k < s.len(),
        j != k,
    ensures
        differing(s[j], s[k], n) >= 2,
{
    if j < k {
        assert(is_greedy_choice(s.take(k), s[k], n));
        assert(s.take(k)[j] == s[j]);
        lemma_differing_symmetric(s[j], s[k], n);
    } else {
        assert(is_greedy_choice(s.take(j), s[j], n));
        assert(s.take(j)[k] == s[k]);
    }
}

/// Every number of the domain that a complete greedy selection leaves out
/// differs in exactly one digit position from some selected number.
pub proof fn lemma_code_maximal(s: Seq<nat>, n: nat, x: nat)
    requires
        is_greedy_code(s, n),
        x < weight(n),
        !s.contains(x),
    ensures
        exists|k: int| 0 <= k < s.len() && differing(x, #[trigger] s[k], n) == 1,
{
    assert(covered(x, s, n));
    let k = choose|k: int| 0 <= k < s.len() && close(x, #[trigger] s[k], n);
    assert(is_greedy_choice(s.take(k), s[k], n));
    if differing(x, s[k], n) == 0 {
        lemma_same_digits_equal(x, s[k], n);
        assert(s.contains(x));
    }
}

/// A complete greedy selection is strictly increasing.
pub proof fn lemma_code_ascending(s: Seq<nat>, n: nat, j: int, k: int)
    requires
        is_greedy_code(s, n),
        0 <= j < k < s.len(),
    ensures
        s[j] < s[k],
{
    assert(is_greedy_choice(s.take(k), s[k], n));
    assert(is_greedy_choice(s.take(j), s[j], n));
    if s[k] < s[j] {
        assert(covered(s[k], s.take(j), n));
        let m = choose|m: int| 0 <= m < s.take(j).len() && close(s[k], #[trigger] s.take(j)[m], n);
        assert(s.take(k)[m] == s.take(j)[m]);
    } else if s[k] == s[j] {
        lemma_differing_self(s[k], n);
        assert(s.take(k)[j] == s[j]);
    }
}

/// After a given prefix there is only one greedy choice.
proof fn lemma_greedy_choice_unique(p: Seq<nat>, x: nat, y: nat, n: nat)
    requires
        is_greedy_choice(p, x, n),
        is_greedy_choice(p, y, n),
    ensures
        x == y,
{
}

proof fn lemma_codes_share_prefix(a: Seq<nat>, b: Seq<nat>, n: nat, k: int)
    requires
        is_greedy_code(a, n),
        is_greedy_code(b, n),
        0 <= k <= a.len(),
        k <= b.len(),
    ensures
        a.take(k) == b.take(k),
    decreases k,
{
    if k > 0 {
        lemma_codes_share_prefix(a, b, n, k - 1);
        assert(is_greedy_choice(a.take(k - 1), a[k - 1], n));
        assert(is_greedy_choice(b.take(k - 1), b[k - 1], n));
        lemma_greedy_choice_unique(a.take(k - 1), a[k - 1], b[k - 1], n);
        assert(a.take(k) =~= a.take(k - 1).push(a[k - 1]));
        assert(b.take(k) =~= b.take(k - 1).push(b[k - 1]));
    }
}

proof fn lemma_code_no_longer(a: Seq<nat>, b: Seq<nat>, n: nat)
    requires
        is_greedy_code(a, n),
        is_greedy_code(b, n),
    ensures
        b.len() <= a.len(),
{
    if a.len() < b.len() {
        let k = a.len() as int;
        lemma_codes_share_prefix(a, b, n, k);
        assert(a.take(k) =~= a);
        assert(is_greedy_choice(b.take(k), b[k], n));
        assert(covered(b[k], a, n));
    }
}

/// The complete greedy selection of a domain is unique: two runs over the
/// same digit width choose the same numbers in the same order.
pub proof fn lemma_code_unique(a: Seq<nat>, b: Seq<nat>, n: nat)
    requires
        is_greedy_code(a, n),
        is_greedy_code(b, n),
    ensures
        a == b,
{
    lemma_code_no_longer(a, b, n);
    lemma_code_no_longer(b, a, n);
    lemma_codes_share_prefix(a, b, n, a.len() as int);
    assert(a.take(a.len() as int) =~= a);
    assert(b.take(b.len() as int) =~= b);
}

/// Two complete enumerations of the same digit width write the same bytes
/// and count the same number of selections.
pub proof fn lemma_output_deterministic(a: Seq<nat>, b: Seq<nat>, n: nat)
    requires
        is_greedy_code(a, n),
        is_greedy_code(b, n),
    ensures
        lines_of(a, n) == lines_of(b, n),
        a.len() == b.len(),
{
    lemma_code_unique(a, b, n);
}

/// Numbers below `BASE^n` have zero digits above position `n`.
proof fn lemma_differing_wider(x: nat, y: nat, n: nat)
    requires
        x < weight(n),
        y < weight(n),
    ensures
        differing(x, y, n + 1) == differing(x, y, n),
    decreases n,
{
    if n > 0 {
        let p = (n - 1) as nat;
        lemma_weight_grows(p);
        lemma_differing_wider(x / BASE as nat, y / BASE as nat, p);
    }
}

proof fn lemma_covered_wider(x: nat, p: Seq<nat>, n: nat)
    requires
        x < weight(n),
        forall|k: int| 0 <= k < p.len() ==> #[trigger] p[k] < weight(n),
    ensures
        covered(x, p, n + 1) == covered(x, p, n),
{
    if covered(x, p, n) {
        let k = choose|k: int| 0 <= k < p.len() && close(x, #[trigger] p[k], n);
        lemma_differing_wider(x, p[k], n);
    }
    if covered(x, p, n + 1) {
        let k = choose|k: int| 0 <= k < p.len() && close(x, #[trigger] p[k], n + 1);
        lemma_differing_wider(x, p[k], n);
    }
}

proof fn lemma_wider_code_extends(a: Seq<nat>, b: Seq<nat>, n: nat, k: int)
    requires
        is_greedy_code(a, n),
        is_greedy_code(b, n + 1),
        0 <= k <= a.len(),
    ensures
        k <= b.len(),
        a.take(k) == b.take(k),
    decreases k,
{
    if k > 0 {
        let i = k - 1;
        lemma_wider_code_extends(a, b, n, i);
        let p = a.take(i);
        lemma_weight_grows(n);
        assert(is_greedy_choice(a.take(i), a[i], n));
        assert forall|m: int| 0 <= m < p.len() implies #[trigger] p[m] < weight(n) by {
            assert(is_greedy_choice(a.take(m), a[m], n));
        }
        lemma_covered_wider(a[i], p, n);
        if b.len() == i {
            assert(b.take(i) =~= b);
            assert(covered(a[i], b, n + 1));
        }
        assert(is_greedy_choice(b.take(i), b[i], n + 1));
        if b[i] < a[i] {
            lemma_covered_wider(b[i], p, n);
        }
        assert(a.take(k) =~= a.take(i).push(a[i]));
        assert(b.take(k) =~= b.take(i).push(b[i]));
    }
}

/// Widening the domain by one digit never shrinks the complete greedy
/// selection: the selection of the narrower domain is a prefix of the wider.
pub proof fn lemma_code_grows_with_width(a: Seq<nat>, b: Seq<nat>, n: nat)
    requires
        is_greedy_code(a, n),
        is_greedy_code(b, n + 1),
    ensures
        a.len() <= b.len(),
        a == b.take(a.len() as int),
{
    lemma_wider_code_extends(a, b, n, a.len() as int);
    assert(a.take(a.len() as int) =~= a);
}

} // verus!
