//! Selection policies over a list of candidate service instances:
//! round-robin, weighted-random, and uniform-random. Selection is pure in
//! the candidates and the balancer's own counter or random draw.

use vstd::prelude::*;
use crate::service::{ServiceInfo, ServiceInfoV};

verus! {

/// The sum of the candidates' weights (fixed-point thousandths).
pub open spec fn total_weight(s: Seq<ServiceInfoV>) -> int
    decreases s.len(),
{
    if s.len() == 0 {
        0
    } else {
        s[0].weight_millis + total_weight(s.drop_first())
    }
}

/// The sum of the weights of the first `i` candidates.
pub open spec fn prefix_weight(s: Seq<ServiceInfoV>, i: int) -> int
    decreases i,
{
    if i <= 0 {
        0
    } else {
        prefix_weight(s, i - 1) + s[i - 1].weight_millis
    }
}

/// The candidate a draw of `d` selects: weights are laid out as adjacent
/// buckets, and `d` falls in the bucket of the index returned.
pub open spec fn weighted_pick(s: Seq<ServiceInfoV>, d: int) -> int
    decreases s.len(),
{
    if s.len() <= 1 {
        0
    } else if d < s[0].weight_millis {
        0
    } else {
        1 + weighted_pick(s.drop_first(), d - s[0].weight_millis)
    }
}

proof fn lemma_total_prefix(s: Seq<ServiceInfoV>, i: int)
    requires
        0 <= i <= s.len(),
    ensures
        total_weight(s) == prefix_weight(s, i) + total_weight(s.skip(i)),
    decreases i,
{
    if i == 0 {
        assert(s.skip(0) =~= s);
    } else {
        lemma_total_prefix(s, i - 1);
        assert(s.skip(i - 1).drop_first() =~= s.skip(i));
        if s.skip(i - 1).len() > 0 {
            assert(s.skip(i - 1)[0] == s[i - 1]);
        }
    }
}

/// Weighted selection is exactly bucketing: for every draw `d` below the
/// total weight, the candidate picked is the unique index whose half-open
/// weight bucket `[prefix, prefix + weight)` contains `d`. In particular
/// each candidate owns exactly as many draws as its weight, which is the
/// weighted-selection frequency law in exact form.
pub proof fn lemma_weighted_pick_bucket(s: Seq<ServiceInfoV>, d: int)
    requires
        s.len() > 0,
        0 <= d < total_weight(s),
    ensures
        0 <= weighted_pick(s, d) < s.len(),
        prefix_weight(s, weighted_pick(s, d)) <= d < prefix_weight(s, weighted_pick(s, d))
            + s[weighted_pick(s, d)].weight_millis,
    decreases s.len(),
{
    let t = s.drop_first();
    assert(total_weight(s) == s[0].weight_millis + total_weight(t));
    if s.len() == 1 {
        assert(total_weight(t) == 0);
    } else if d < s[0].weight_millis {
    } else {
        lemma_weighted_pick_bucket(t, d - s[0].weight_millis);
        let i = weighted_pick(t, d - s[0].weight_millis);
        assert forall|j: int| 0 <= j <= t.len() implies prefix_weight(s, j + 1) == s[0].weight_millis
            + prefix_weight(t, j) by {
            lemma_prefix_shift(s, j);
        }
        assert(t[i] == s[i + 1]);
    }
}

proof fn lemma_prefix_shift(s: Seq<ServiceInfoV>, j: int)
    requires
        s.len() > 0,
        0 <= j <= s.len() - 1,
    ensures
        prefix_weight(s, j + 1) == s[0].weight_millis + prefix_weight(s.drop_first(), j),
    decreases j,
{
    assert(prefix_weight(s, 0) == 0);
    assert(prefix_weight(s.drop_first(), 0) == 0);
    if j > 0 {
        lemma_prefix_shift(s, j - 1);
        assert(s.drop_first()[j - 1] == s[j]);
    }
}

/// The bucket characterization is exclusive: a draw inside candidate
/// `i`'s bucket selects `i` and no other candidate.
pub proof fn lemma_weighted_pick_unique(s: Seq<ServiceInfoV>, d: int, i: int)
    requires
        s.len() > 0,
        0 <= d < total_weight(s),
        0 <= i < s.len(),
        prefix_weight(s, i) <= d < prefix_weight(s, i) + s[i].weight_millis,
    ensures
        weighted_pick(s, d) == i,
    decreases s.len(),
{
    let t = s.drop_first();
    if s.len() == 1 {
    } else if i == 0 {
        assert(prefix_weight(s, 0) == 0);
    } else {
        assert(prefix_weight(s, 0) == 0);
        assert(prefix_weight(s, 1) == s[0].weight_millis);
        lemma_prefix_mono(s, 1, i);
        assert(d >= s[0].weight_millis);
        assert forall|j: int| 0 <= j <= t.len() implies prefix_weight(s, j + 1) == s[0].weight_millis
            + prefix_weight(t, j) by {
            lemma_prefix_shift(s, j);
        }
        assert(t[i - 1] == s[i]);
        assert(total_weight(s) == s[0].weight_millis + total_weight(t));
        lemma_weighted_pick_unique(t, d - s[0].weight_millis, i - 1);
    }
}

proof fn lemma_prefix_mono(s: Seq<ServiceInfoV>, i: int, j: int)
    requires
        0 <= i <= j <= s.len(),
    ensures
        prefix_weight(s, i) <= prefix_weight(s, j),
    decreases j - i,
{
    if i < j {
        lemma_prefix_mono(s, i, j - 1);
    }
}

/// Relies on `rand::Rng::gen_range` on the thread-local generator
/// `rand::thread_rng`: the result is drawn from `[0, n)`; the call panics
/// only on an empty range, which the precondition excludes. Nothing more
/// is promised of a random value.
#[verifier::external_body]
fn random_below(n: u128) -> (r: u128)
    requires
        n > 0,
    ensures
        r < n,
{
    rand::Rng::gen_range(&mut rand::thread_rng(), 0..n)
}

/// The models of a candidate vector.
pub open spec fn views_of(s: Seq<ServiceInfo>, i: int) -> Seq<ServiceInfoV>
    decreases s.len() - i,
{
    if 0 <= i < s.len() {
        seq![s[i]@] + views_of(s, i + 1)
    } else {
        Seq::empty()
    }
}

pub proof fn lemma_views_of(s: Seq<ServiceInfo>, i: int)
    requires
        0 <= i <= s.len(),
    ensures
        views_of(s, i).len() == s.len() - i,
        forall|j: int| i <= j < s.len() ==> views_of(s, i)[j - i] == s[j]@,
    decreases s.len() - i,
{
    if i < s.len() {
        lemma_views_of(s, i + 1);
    }
}

/// Round-robin selection: a shared counter, increased on every call, picks
/// the candidate at the counter's value modulo the candidate count.
pub struct RoundRobinBalancer {
    counter: u64,
}

impl RoundRobinBalancer {
    /// The counter's current value.
    pub closed spec fn counter(&self) -> nat {
        self.counter as nat
    }

    pub fn new() -> (r: RoundRobinBalancer)
        ensures
            r.counter() == 0,
    {
        RoundRobinBalancer { counter: 0 }
    }

    /// Picks the candidate at `counter % len` and advances the counter
    /// (wrapping at its width; only its value modulo the candidate count
    /// matters). An empty candidate list selects nothing and leaves the
    /// counter untouched.
    pub fn select<'a>(&mut self, instances: &'a Vec<ServiceInfo>) -> (r: Option<&'a ServiceInfo>)
        ensures
            match r {
                Some(s) => instances@.len() > 0 && *s == instances@[(old(self).counter() % (
                instances@.len() as nat)) as int] && final(self).counter() == (old(self).counter()
                    + 1) % 0x1_0000_0000_0000_0000,
                None => instances@.len() == 0 && final(self).counter() == old(self).counter(),
            },
    {
        if instances.len() == 0 {
            return None;
        }
        let idx = (self.counter % (instances.len() as u64)) as usize;
        proof {
            assert(self.counter as nat % (instances@.len() as nat) == idx as nat);
        }
        if self.counter == u64::MAX {
            self.counter = 0;
        } else {
            self.counter = self.counter + 1;
        }
        Some(&instances[idx])
    }
}

/// Round-robin fairness: starting from counter `c0`, the `k`-th of the
/// next `len` consecutive selections picks index `(c0 + k) % len`; within
/// one such round no index repeats, and the selection one full round later
/// repeats the first.
pub proof fn lemma_round_robin_cycle(c0: nat, len: nat, k1: nat, k2: nat)
    requires
        len > 0,
        k1 < len,
        k2 < len,
        k1 != k2,
    ensures
        (c0 + k1) % len != (c0 + k2) % len,
        (c0 + len) % len == c0 % len,
{
    let a = (c0 + k1) as int;
    let b = (c0 + k2) as int;
    let n = len as int;
    vstd::arithmetic::div_mod::lemma_mod_adds(c0 as int, len as int, n);
    vstd::arithmetic::div_mod::lemma_mod_self_0(n);
    assert((c0 + len) % len == c0 % len) by {
        assert((len as int) % n == 0);
        assert(((c0 as int % n) + (len as int % n)) % n == c0 as int % n) by {
            vstd::arithmetic::div_mod::lemma_mod_twice(c0 as int, n);
        }
    }
    if a % n == b % n {
        vstd::arithmetic::div_mod::lemma_fundamental_div_mod(a, n);
        vstd::arithmetic::div_mod::lemma_fundamental_div_mod(b, n);
        let q = a / n - b / n;
        assert(a - b == q * n) by (nonlinear_arith)
            requires
                a == n * (a / n) + a % n,
                b == n * (b / n) + b % n,
                a % n == b % n,
                q == a / n - b / n,
        ;
        assert(q != 0 ==> (q * n >= n || q * n <= -n)) by (nonlinear_arith)
            requires
                n > 0,
        ;
        assert(-n < a - b < n);
        assert(a - b != 0);
        assert(false);
    }
}

/// When the counter starts at zero, one full round visits the candidates
/// in index order.
pub proof fn lemma_round_robin_in_order(len: nat, k: nat)
    requires
        len > 0,
        k < len,
    ensures
        (0 + k) % len == k,
{
    vstd::arithmetic::div_mod::lemma_small_mod(k, len);
}

/// Weighted-random selection: a draw below the total weight picks a
/// candidate with probability proportional to its weight; with no positive
/// weight, a uniform random index is used instead.
pub struct WeightedBalancer {}

impl WeightedBalancer {
    pub fn new() -> (r: WeightedBalancer) {
        WeightedBalancer {  }
    }

    /// Selects by weighted draw, per [`weighted_pick`]; on a zero total
    /// weight, a uniformly random candidate. Which draw came up is the
    /// generator's choice; everything after the draw is exact.
    pub fn select<'a>(&self, instances: &'a Vec<ServiceInfo>) -> (r: Option<&'a ServiceInfo>)
        ensures
            match r {
                Some(s) => instances@.len() > 0 && (if total_weight(views_of(instances@, 0)) > 0 {
                    exists|d: int|
                        0 <= d < total_weight(views_of(instances@, 0)) && *s == instances@[
                            weighted_pick(views_of(instances@, 0), d)]
                } else {
                    exists|k: int| 0 <= k < instances@.len() && *s == instances@[k]
                }),
                None => instances@.len() == 0,
            },
    {
        if instances.len() == 0 {
            return None;
        }
        proof {
            lemma_views_of(instances@, 0);
        }
        let mut total: u128 = 0;
        let mut i: usize = 0;
        while i < instances.len()
            invariant
                i <= instances@.len(),
                views_of(instances@, 0).len() == instances@.len(),
                forall|j: int|
                    0 <= j < instances@.len() ==> views_of(instances@, 0)[j] == instances@[j]@,
                total == prefix_weight(views_of(instances@, 0), i as int),
                total <= i * 0x1_0000_0000_0000_0000,
            decreases instances@.len() - i,
        {
            proof {
                assert((i + 1) * 0x1_0000_0000_0000_0000 == i * 0x1_0000_0000_0000_0000
                    + 0x1_0000_0000_0000_0000) by (nonlinear_arith);
            }
            total = total + instances[i].weight_millis() as u128;
            i = i + 1;
        }
        proof {
            lemma_total_prefix(views_of(instances@, 0), instances@.len() as int);
            assert(views_of(instances@, 0).skip(instances@.len() as int) =~= Seq::<
                ServiceInfoV,
            >::empty());
            assert(total == total_weight(views_of(instances@, 0)));
        }
        if total == 0 {
            let d = random_below(instances.len() as u128);
            let k = d as usize;
            return Some(&instances[k]);
        }
        let draw = random_below(total);
        let idx = self.select_by_weight(instances, draw);
        Some(&instances[idx])
    }

    /// The index of the bucket a draw falls in, by scanning the weights in
    /// order and subtracting.
    fn select_by_weight(&self, instances: &Vec<ServiceInfo>, draw: u128) -> (r: usize)
        requires
            instances@.len() > 0,
            0 <= draw < total_weight(views_of(instances@, 0)),
        ensures
            r as int == weighted_pick(views_of(instances@, 0), draw as int),
            r < instances@.len(),
    {
        proof {
            lemma_views_of(instances@, 0);
        }
        let mut i: usize = 0;
        let mut rest: u128 = draw;
        while i < instances.len() - 1
            invariant
                instances@.len() > 0,
                i < instances@.len(),
                views_of(instances@, 0).len() == instances@.len(),
                forall|j: int|
                    0 <= j < instances@.len() ==> views_of(instances@, 0)[j] == instances@[j]@,
                weighted_pick(views_of(instances@, 0), draw as int) == i + weighted_pick(
                    views_of(instances@, i as int),
                    rest as int,
                ),
                rest as int == draw - prefix_weight(views_of(instances@, 0), i as int),
                rest < total_weight(views_of(instances@, i as int)),
                total_weight(views_of(instances@, i as int)) == total_weight(
                    views_of(instances@, 0),
                ) - prefix_weight(views_of(instances@, 0), i as int),
            decreases instances@.len() - i,
        {
            let w = instances[i].weight_millis() as u128;
            proof {
                lemma_views_of(instances@, i as int);
                lemma_views_of(instances@, i + 1);
                assert(views_of(instances@, i as int).drop_first() =~= views_of(
                    instances@,
                    i + 1,
                ));
                assert(views_of(instances@, i as int)[0] == instances@[i as int]@);
                lemma_prefix_shift_full(instances@, i as int);
            }
            if rest < w {
                proof {
                    assert(weighted_pick(views_of(instances@, i as int), rest as int) == 0);
                }
                return i;
            }
            rest = rest - w;
            i = i + 1;
        }
        proof {
            lemma_views_of(instances@, i as int);
            assert(views_of(instances@, i as int).len() == 1);
            assert(weighted_pick(views_of(instances@, i as int), rest as int) == 0);
        }
        i
    }
}

proof fn lemma_prefix_shift_full(s: Seq<ServiceInfo>, i: int)
    requires
        0 <= i < s.len(),
    ensures
        prefix_weight(views_of(s, 0), i + 1) == prefix_weight(views_of(s, 0), i) + s[i]@
            .weight_millis,
{
    lemma_views_of(s, 0);
}

/// Uniform-random selection.
pub struct RandomBalancer {}

impl RandomBalancer {
    pub fn new() -> (r: RandomBalancer) {
        RandomBalancer {  }
    }

    /// Selects a uniformly random candidate. Which index came up is the
    /// generator's choice.
    pub fn select<'a>(&self, instances: &'a Vec<ServiceInfo>) -> (r: Option<&'a ServiceInfo>)
        ensures
            match r {
                Some(s) => instances@.len() > 0 && exists|k: int|
                    0 <= k < instances@.len() && *s == instances@[k],
                None => instances@.len() == 0,
            },
    {
        if instances.len() == 0 {
            return None;
        }
        let d = random_below(instances.len() as u128);
        let k = d as usize;
        Some(&instances[k])
    }
}

} // verus!
