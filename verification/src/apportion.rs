//! Largest-remainder apportionment: dividing a whole number among weighted
//! entries so that the parts are whole numbers and add up to it.

use vstd::arithmetic::div_mod::lemma_fundamental_div_mod;
use vstd::arithmetic::div_mod::lemma_mod_pos_bound;
use vstd::arithmetic::mul::lemma_mul_is_distributive_add;
use vstd::prelude::*;

verus! {

/// The sum of a sequence of natural numbers.
pub open spec fn seq_sum(s: Seq<nat>) -> nat
    decreases s.len(),
{
    if s.len() == 0 {
        0
    } else {
        seq_sum(s.drop_last()) + s.last()
    }
}

/// The numbers of a sequence of machine words.
pub open spec fn counts(s: Seq<usize>) -> Seq<nat> {
    Seq::new(s.len(), |i: int| s[i] as nat)
}

/// The weights of a sequence of 32-bit numbers.
pub open spec fn weights_of(s: Seq<u32>) -> Seq<nat> {
    Seq::new(s.len(), |i: int| s[i] as nat)
}

/// The whole part of entry `i`'s proportional share of `total`.
pub open spec fn share_floor(total: nat, weights: Seq<nat>, i: int) -> nat {
    (total * weights[i]) / seq_sum(weights)
}

/// What entry `i`'s proportional share of `total` exceeds its whole part by,
/// in units of one over the sum of the weights.
pub open spec fn share_rest(total: nat, weights: Seq<nat>, i: int) -> nat {
    (total * weights[i]) % seq_sum(weights)
}

/// Entry `i` is served before entry `j` when the shortfall is handed out:
/// it has the larger rest, or the same rest and the smaller index.
pub open spec fn served_before(total: nat, weights: Seq<nat>, i: int, j: int) -> bool {
    share_rest(total, weights, i) > share_rest(total, weights, j) || (share_rest(
        total,
        weights,
        i,
    ) == share_rest(total, weights, j) && i < j)
}

/// `parts` is the largest-remainder apportionment of `total` by `weights`:
/// the parts add up to `total`, each part is the whole part of its
/// proportional share or one more, and the entries that got one more are
/// those served first.
pub open spec fn is_apportionment(parts: Seq<nat>, total: nat, weights: Seq<nat>) -> bool {
    &&& parts.len() == weights.len()
    &&& seq_sum(parts) == total
    &&& forall|i: int|
        0 <= i < parts.len() ==> share_floor(total, weights, i) <= #[trigger] parts[i]
            <= share_floor(total, weights, i) + 1
    &&& forall|i: int, j: int|
        0 <= i < parts.len() && 0 <= j < parts.len() && #[trigger] parts[i] == share_floor(
            total,
            weights,
            i,
        ) + 1 && #[trigger] parts[j] == share_floor(total, weights, j) ==> served_before(
            total,
            weights,
            i,
            j,
        )
}

/// A sequence with one more entry sums to that much more.
pub proof fn lemma_sum_push(s: Seq<nat>, x: nat)
    ensures
        seq_sum(s.push(x)) == seq_sum(s) + x,
{
    assert(s.push(x).drop_last() =~= s);
}

/// The first entries and one more sum to that much more than the first.
pub proof fn lemma_sum_take(s: Seq<nat>, n: int)
    requires
        0 <= n < s.len(),
    ensures
        seq_sum(s.take(n + 1)) == seq_sum(s.take(n)) + s[n],
{
    assert(s.take(n + 1).drop_last() =~= s.take(n));
}

/// A part of a sequence sums to no more than the whole, and no entry is
/// larger than the sum.
pub proof fn lemma_sum_bounds(s: Seq<nat>, n: int)
    requires
        0 <= n <= s.len(),
    ensures
        seq_sum(s.take(n)) <= seq_sum(s),
        forall|i: int| 0 <= i < s.len() ==> #[trigger] s[i] <= seq_sum(s),
    decreases s.len(),
{
    if s.len() == 0 {
        assert(s.take(n) =~= s);
    } else {
        let front = s.drop_last();
        if n == s.len() {
            assert(s.take(n) =~= s);
            lemma_sum_bounds(front, 0);
        } else {
            lemma_sum_bounds(front, n);
            assert(front.take(n) =~= s.take(n));
        }
        assert forall|i: int| 0 <= i < s.len() implies #[trigger] s[i] <= seq_sum(s) by {
            if i < front.len() {
                assert(front[i] == s[i]);
            }
        }
    }
}

/// Changing one entry changes the sum by as much.
pub proof fn lemma_sum_update(s: Seq<nat>, i: int, x: nat)
    requires
        0 <= i < s.len(),
    ensures
        seq_sum(s.update(i, x)) + s[i] == seq_sum(s) + x,
    decreases s.len(),
{
    let front = s.drop_last();
    if i == s.len() - 1 {
        assert(s.update(i, x).drop_last() =~= front);
    } else {
        lemma_sum_update(front, i, x);
        assert(s.update(i, x).drop_last() =~= front.update(i, x));
    }
}

/// Two sequences with the same sum that differ somewhere upwards differ
/// somewhere downwards.
pub proof fn lemma_sum_balance(a: Seq<nat>, b: Seq<nat>, i: int) -> (j: int)
    requires
        a.len() == b.len(),
        seq_sum(a) == seq_sum(b),
        0 <= i < a.len(),
        a[i] > b[i],
    ensures
        0 <= j < a.len(),
        a[j] < b[j],
    decreases a.len(),
{
    let last = a.len() - 1;
    if a[last] < b[last] {
        last
    } else if i == last {
        lemma_sum_surplus(a.drop_last(), b.drop_last())
    } else if a[last] == b[last] {
        lemma_sum_balance(a.drop_last(), b.drop_last(), i)
    } else {
        lemma_sum_surplus(a.drop_last(), b.drop_last())
    }
}

proof fn lemma_sum_surplus(a: Seq<nat>, b: Seq<nat>) -> (j: int)
    requires
        a.len() == b.len(),
        seq_sum(a) < seq_sum(b),
    ensures
        0 <= j < a.len(),
        a[j] < b[j],
    decreases a.len(),
{
    let last = a.len() - 1;
    if a[last] < b[last] {
        last
    } else {
        lemma_sum_surplus(a.drop_last(), b.drop_last())
    }
}

/// A sequence with a positive entry has a positive sum.
pub proof fn lemma_sum_positive(s: Seq<nat>, i: int)
    requires
        0 <= i < s.len(),
        s[i] > 0,
    ensures
        seq_sum(s) > 0,
{
    lemma_sum_bounds(s, 0);
}

/// The proportional shares of the first `n` entries, whole parts and rests
/// together, make up `total` times their weights.
pub proof fn lemma_shares_add_up(total: nat, weights: Seq<nat>, n: int)
    requires
        0 <= n <= weights.len(),
        seq_sum(weights) > 0,
    ensures
        total * seq_sum(weights.take(n)) == seq_sum(weights) * seq_sum(
            Seq::new(n as nat, |i: int| share_floor(total, weights, i)),
        ) + seq_sum(Seq::new(n as nat, |i: int| share_rest(total, weights, i))),
        seq_sum(Seq::new(n as nat, |i: int| share_rest(total, weights, i))) + n <= n * seq_sum(
            weights,
        ),
        seq_sum(Seq::new(n as nat, |i: int| share_floor(total, weights, i))) <= total,
    decreases n,
{
    let w = seq_sum(weights) as int;
    let floors = Seq::new(n as nat, |i: int| share_floor(total, weights, i));
    let rests = Seq::new(n as nat, |i: int| share_rest(total, weights, i));
    if n == 0 {
        assert(weights.take(0) =~= Seq::<nat>::empty());
        assert(floors =~= Seq::<nat>::empty());
        assert(rests =~= Seq::<nat>::empty());
        assert(total * 0 == 0) by (nonlinear_arith);
        assert(w * 0 == 0) by (nonlinear_arith);
    } else {
        let m = n - 1;
        lemma_shares_add_up(total, weights, m);
        let floors_m = Seq::new(m as nat, |i: int| share_floor(total, weights, i));
        let rests_m = Seq::new(m as nat, |i: int| share_rest(total, weights, i));
        let f = share_floor(total, weights, m);
        let r = share_rest(total, weights, m);
        assert(floors =~= floors_m.push(f));
        assert(rests =~= rests_m.push(r));
        lemma_sum_push(floors_m, f);
        lemma_sum_push(rests_m, r);
        lemma_sum_take(weights, m);
        let x = (total * weights[m]) as int;
        lemma_fundamental_div_mod(x, w);
        lemma_mod_pos_bound(x, w);
        lemma_mul_is_distributive_add(total as int, seq_sum(weights.take(m)) as int, weights[m] as int);
        lemma_mul_is_distributive_add(w, seq_sum(floors_m) as int, f as int);
        assert(n * w == m * w + w) by (nonlinear_arith)
            requires
                n == m + 1,
        ;
        lemma_sum_bounds(weights, n);
        let sf = seq_sum(floors) as int;
        let sw = seq_sum(weights.take(n)) as int;
        let t = total as int;
        assert(sf <= t) by (nonlinear_arith)
            requires
                t * sw >= w * sf,
                0 <= sw <= w,
                w > 0,
                t >= 0,
                sf >= 0,
        ;
    }
}

/// Each part of an apportionment is within one of the proportional share.
pub proof fn lemma_parts_near_shares(parts: Seq<nat>, total: nat, weights: Seq<nat>, i: int)
    requires
        is_apportionment(parts, total, weights),
        seq_sum(weights) > 0,
        0 <= i < parts.len(),
    ensures
        seq_sum(weights) * parts[i] <= total * weights[i] + seq_sum(weights),
        total * weights[i] <= seq_sum(weights) * parts[i] + seq_sum(weights),
{
    let w = seq_sum(weights) as int;
    let x = (total * weights[i]) as int;
    let f = share_floor(total, weights, i) as int;
    let p = parts[i] as int;
    lemma_fundamental_div_mod(x, w);
    lemma_mod_pos_bound(x, w);
    assert(f <= p <= f + 1);
    assert(w * p <= x + w && x <= w * p + w) by (nonlinear_arith)
        requires
            f <= p <= f + 1,
            w * f <= x < w * f + w,
            w > 0,
    ;
}

/// There is only one apportionment of a total by given weights.
pub proof fn lemma_apportionment_unique(a: Seq<nat>, b: Seq<nat>, total: nat, weights: Seq<nat>)
    requires
        is_apportionment(a, total, weights),
        is_apportionment(b, total, weights),
    ensures
        a == b,
{
    assert forall|i: int| 0 <= i < a.len() implies a[i] == b[i] by {
        if a[i] > b[i] {
            let j = lemma_sum_balance(a, b, i);
            assert(a[i] == share_floor(total, weights, i) + 1);
            assert(b[i] == share_floor(total, weights, i));
            assert(a[j] == share_floor(total, weights, j));
            assert(b[j] == share_floor(total, weights, j) + 1);
            assert(served_before(total, weights, i, j));
            assert(served_before(total, weights, j, i));
        } else if a[i] < b[i] {
            let j = lemma_sum_balance(b, a, i);
            assert(b[i] == share_floor(total, weights, i) + 1);
            assert(a[i] == share_floor(total, weights, i));
            assert(b[j] == share_floor(total, weights, j));
            assert(a[j] == share_floor(total, weights, j) + 1);
            assert(served_before(total, weights, i, j));
            assert(served_before(total, weights, j, i));
        }
    }
    assert(a =~= b);
}

/// How many entries of a sequence of flags are set.
pub open spec fn count_set(flags: Seq<bool>) -> nat
    decreases flags.len(),
{
    if flags.len() == 0 {
        0
    } else {
        count_set(flags.drop_last()) + if flags.last() {
            1nat
        } else {
            0nat
        }
    }
}

proof fn lemma_count_set_all(flags: Seq<bool>)
    requires
        forall|i: int| 0 <= i < flags.len() ==> flags[i],
    ensures
        count_set(flags) == flags.len(),
    decreases flags.len(),
{
    if flags.len() > 0 {
        lemma_count_set_all(flags.drop_last());
    }
}

proof fn lemma_count_set_one_more(flags: Seq<bool>, i: int)
    requires
        0 <= i < flags.len(),
        !flags[i],
    ensures
        count_set(flags.update(i, true)) == count_set(flags) + 1,
    decreases flags.len(),
{
    let front = flags.drop_last();
    if i == flags.len() - 1 {
        assert(flags.update(i, true).drop_last() =~= front);
    } else {
        lemma_count_set_one_more(front, i);
        assert(flags.update(i, true).drop_last() =~= front.update(i, true));
    }
}

proof fn lemma_count_set_none(n: nat)
    ensures
        count_set(Seq::new(n, |i: int| false)) == 0,
    decreases n,
{
    if n > 0 {
        lemma_count_set_none((n - 1) as nat);
        assert(Seq::new(n, |i: int| false).drop_last() =~= Seq::new((n - 1) as nat, |i: int| false));
    }
}

/// Divides `total` among the entries in proportion to their weights, in
/// whole numbers that add up to `total`: each entry gets the whole part of
/// its proportional share, and what is then missing goes, one each, to the
/// entries whose shares were cut most, the earlier entry first among equals.
pub fn sum_safe_round(total: usize, weights: &Vec<u32>) -> (parts: Vec<usize>)
    requires
        exists|i: int| 0 <= i < weights.len() && #[trigger] weights[i] > 0,
    ensures
        is_apportionment(counts(parts@), total as nat, weights_of(weights@)),
{
    let n = weights.len();
    let ghost ws = weights_of(weights@);
    let ghost t = total as nat;
    let mut weight_sum: u128 = 0;
    let mut i: usize = 0;
    proof {
        assert(ws.take(0) =~= Seq::<nat>::empty());
    }
    while i < n
        invariant
            i <= n,
            n == weights.len(),
            ws == weights_of(weights@),
            weight_sum == seq_sum(ws.take(i as int)),
            weight_sum <= i * 0xffff_ffff,
        decreases n - i,
    {
        proof {
            lemma_sum_take(ws, i as int);
        }
        weight_sum = weight_sum + weights[i] as u128;
        i = i + 1;
    }
    proof {
        assert(ws.take(n as int) =~= ws);
        let k = choose|k: int| 0 <= k < weights.len() && #[trigger] weights[k] > 0;
        lemma_sum_positive(ws, k);
    }
    let mut parts: Vec<usize> = Vec::new();
    let mut rests: Vec<u128> = Vec::new();
    let mut assigned: usize = 0;
    i = 0;
    while i < n
        invariant
            i <= n,
            n == weights.len(),
            ws == weights_of(weights@),
            t == total,
            weight_sum == seq_sum(ws),
            weight_sum > 0,
            parts.len() == i,
            rests.len() == i,
            forall|k: int| 0 <= k < i ==> #[trigger] parts[k] == share_floor(t, ws, k),
            forall|k: int| 0 <= k < i ==> #[trigger] rests[k] == share_rest(t, ws, k),
            assigned == seq_sum(Seq::new(i as nat, |k: int| share_floor(t, ws, k))),
        decreases n - i,
    {
        let weight = weights[i] as u128;
        proof {
            lemma_shares_add_up(t, ws, i as int + 1);
            let more = Seq::new((i + 1) as nat, |k: int| share_floor(t, ws, k));
            let fewer = Seq::new(i as nat, |k: int| share_floor(t, ws, k));
            assert(more.drop_last() =~= fewer);
            lemma_sum_bounds(more, 0);
            assert(more[i as int] <= seq_sum(more));
            assert(total * weight <= 0xffff_ffff_ffff_ffff * 0xffff_ffff) by (nonlinear_arith)
                requires
                    0 <= total <= 0xffff_ffff_ffff_ffff,
                    0 <= weight <= 0xffff_ffff,
            ;
            assert(ws[i as int] == weight);
        }
        let product: u128 = (total as u128) * weight;
        let floor: u128 = product / weight_sum;
        let rest: u128 = product % weight_sum;
        parts.push(floor as usize);
        rests.push(rest);
        assigned = assigned + floor as usize;
        i = i + 1;
    }
    proof {
        lemma_shares_add_up(t, ws, n as int);
        assert(ws.take(n as int) =~= ws);
    }
    let shortfall: usize = total - assigned;
    let ghost floors = Seq::new(n as nat, |k: int| share_floor(t, ws, k));
    let ghost rest_sum = seq_sum(Seq::new(n as nat, |k: int| share_rest(t, ws, k)));
    proof {
        assert(counts(parts@) =~= floors);
        let w = weight_sum as int;
        let sh = shortfall as int;
        let a = assigned as int;
        let nn = n as int;
        let tt = total as int;
        let rs = rest_sum as int;
        assert(sh < nn || (sh == 0 && nn == 0)) by (nonlinear_arith)
            requires
                tt * w == w * a + rs,
                rs + nn <= nn * w,
                sh == tt - a,
                w > 0,
                nn >= 0,
                sh >= 0,
        ;
        lemma_count_set_none(n as nat);
    }
    let mut served: Vec<bool> = Vec::new();
    i = 0;
    while i < n
        invariant
            i <= n,
            served.len() == i,
            forall|k: int| 0 <= k < i ==> !(#[trigger] served[k]),
        decreases n - i,
    {
        served.push(false);
        i = i + 1;
    }
    proof {
        assert(served@ =~= Seq::new(n as nat, |k: int| false));
    }
    let mut handed: usize = 0;
    while handed < shortfall
        invariant
            handed <= shortfall,
            shortfall < n || shortfall == 0,
            n == weights.len(),
            ws == weights_of(weights@),
            t == total,
            parts.len() == n,
            rests.len() == n,
            served.len() == n,
            assigned + shortfall == total,
            forall|k: int| 0 <= k < n ==> #[trigger] rests[k] == share_rest(t, ws, k),
            forall|k: int|
                0 <= k < n ==> #[trigger] parts[k] == share_floor(t, ws, k) + if served[k] {
                    1nat
                } else {
                    0nat
                },
            count_set(served@) == handed,
            seq_sum(counts(parts@)) == assigned + handed,
            forall|a: int, b: int|
                0 <= a < n && 0 <= b < n && #[trigger] served[a] && !(#[trigger] served[b])
                    ==> served_before(t, ws, a, b),
        decreases shortfall - handed,
    {
        let mut best: usize = n;
        let mut j: usize = 0;
        while j < n
            invariant
                j <= n,
                best <= n,
                rests.len() == n,
                served.len() == n,
                ws == weights_of(weights@),
                forall|k: int| 0 <= k < n ==> #[trigger] rests[k] == share_rest(t, ws, k),
                best < n ==> best < j && !served[best as int],
                best == n ==> forall|k: int| 0 <= k < j ==> #[trigger] served[k],
                best < n ==> forall|k: int|
                    0 <= k < j && !(#[trigger] served[k]) && k != best ==> served_before(
                        t,
                        ws,
                        best as int,
                        k,
                    ),
            decreases n - j,
        {
            if !served[j] && (best == n || rests[j] > rests[best]) {
                best = j;
            }
            j = j + 1;
        }
        proof {
            if best == n {
                lemma_count_set_all(served@);
            }
            lemma_count_set_one_more(served@, best as int);
            lemma_sum_update(counts(parts@), best as int, (parts[best as int] + 1) as nat);
            lemma_sum_bounds(counts(parts@), 0);
            assert(counts(parts@)[best as int] <= seq_sum(counts(parts@)));
        }
        let bumped = parts[best] + 1;
        let ghost parts_before = parts@;
        parts.set(best, bumped);
        served.set(best, true);
        proof {
            assert(counts(parts@) =~= counts(parts_before).update(best as int, bumped as nat));
        }
        handed = handed + 1;
    }
    proof {
        let result = counts(parts@);
        assert forall|a: int, b: int|
            0 <= a < result.len() && 0 <= b < result.len() && #[trigger] result[a] == share_floor(
                t,
                ws,
                a,
            ) + 1 && #[trigger] result[b] == share_floor(t, ws, b) implies served_before(
            t,
            ws,
            a,
            b,
        ) by {
            assert(parts[a] == share_floor(t, ws, a) + if served[a] { 1nat } else { 0nat });
            assert(parts[b] == share_floor(t, ws, b) + if served[b] { 1nat } else { 0nat });
            assert(served[a] && !served[b]);
        }
        assert forall|k: int| 0 <= k < result.len() implies share_floor(t, ws, k)
            <= #[trigger] result[k] <= share_floor(t, ws, k) + 1 by {
            assert(parts[k] == share_floor(t, ws, k) + if served[k] { 1nat } else { 0nat });
        }
    }
    parts
}

} // verus!
