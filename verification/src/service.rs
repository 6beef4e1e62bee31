//! One network-reachable instance of a named service, with its health
//! state, selection weight, and free-form tags.
//!
//! Weights are fixed-point thousandths (a weight of one is 1000): the
//! selection arithmetic of the load balancers is exact integer arithmetic.

use vstd::prelude::*;

verus! {

/// Health of one service instance.
#[derive(Clone, Copy, Debug, PartialEq, Eq, Structural)]
pub enum HealthStatus {
    Healthy,
    Unhealthy,
    Unknown,
}

/// Mathematical model of a service instance: the view of [`ServiceInfo`].
pub struct ServiceInfoV {
    pub name: Seq<char>,
    pub host: Seq<char>,
    pub port: u16,
    pub weight_millis: u64,
    pub health_status: HealthStatus,
    pub last_health_check: u64,
    pub tags: Seq<(Seq<char>, Seq<char>)>,
}

/// The decimal digit character for `n` (0 <= n < 10).
pub open spec fn digit_char(n: nat) -> char {
    if n == 0 {
        '0'
    } else if n == 1 {
        '1'
    } else if n == 2 {
        '2'
    } else if n == 3 {
        '3'
    } else if n == 4 {
        '4'
    } else if n == 5 {
        '5'
    } else if n == 6 {
        '6'
    } else if n == 7 {
        '7'
    } else if n == 8 {
        '8'
    } else {
        '9'
    }
}

/// The decimal digits of `n` as characters, most significant first.
pub open spec fn dec_chars(n: nat) -> Seq<char>
    decreases n,
{
    if n < 10 {
        seq![digit_char(n)]
    } else {
        dec_chars(n / 10) + seq![digit_char(n % 10)]
    }
}

/// The `host:port` form of an instance's address.
pub open spec fn endpoint_chars(host: Seq<char>, port: u16) -> Seq<char> {
    host + seq![':'] + dec_chars(port as nat)
}

pub(crate) fn digit_str(d: u64) -> (r: &'static str)
    requires
        d < 10,
    ensures
        r@ == seq![digit_char(d as nat)],
{
    proof {
        reveal_strlit("0");
        reveal_strlit("1");
        reveal_strlit("2");
        reveal_strlit("3");
        reveal_strlit("4");
        reveal_strlit("5");
        reveal_strlit("6");
        reveal_strlit("7");
        reveal_strlit("8");
        reveal_strlit("9");
    }
    if d == 0 {
        "0"
    } else if d == 1 {
        "1"
    } else if d == 2 {
        "2"
    } else if d == 3 {
        "3"
    } else if d == 4 {
        "4"
    } else if d == 5 {
        "5"
    } else if d == 6 {
        "6"
    } else if d == 7 {
        "7"
    } else if d == 8 {
        "8"
    } else {
        "9"
    }
}

/// Appends the decimal form of `n` to `s`.
pub fn push_dec_chars(s: &mut String, n: u64)
    ensures
        final(s)@ == old(s)@ + dec_chars(n as nat),
    decreases n,
{
    if n < 10 {
        s.append(digit_str(n));
    } else {
        push_dec_chars(s, n / 10);
        s.append(digit_str(n % 10));
        proof {
            assert(old(s)@ + dec_chars((n / 10) as nat) + seq![digit_char((n % 10) as nat)]
                =~= old(s)@ + dec_chars(n as nat));
        }
    }
}

/// Relies on `std::time::SystemTime::now`: the clock reading is converted
/// to whole seconds since the Unix epoch (zero if the clock reads earlier
/// than the epoch). Nothing is promised of the clock's value.
#[verifier::external_body]
pub fn now_unix_seconds() -> u64 {
    std::time::SystemTime::now().duration_since(std::time::SystemTime::UNIX_EPOCH).map(
        |d| d.as_secs(),
    ).unwrap_or(0)
}

/// One instance of a named service. Identity is `(name, host, port)`;
/// weight, health and tags are mutable bookkeeping.
pub struct ServiceInfo {
    name: String,
    host: String,
    port: u16,
    weight_millis: u64,
    health_status: HealthStatus,
    last_health_check: u64,
    tags: Vec<(String, String)>,
}

/// The models of string pairs, used for tag lists.
pub open spec fn pairs_view(t: Seq<(String, String)>, i: int) -> Seq<(Seq<char>, Seq<char>)>
    decreases t.len() - i,
{
    if 0 <= i < t.len() {
        seq![(t[i].0@, t[i].1@)] + pairs_view(t, i + 1)
    } else {
        Seq::empty()
    }
}

pub proof fn lemma_pairs_view(t: Seq<(String, String)>, i: int)
    requires
        0 <= i <= t.len(),
    ensures
        pairs_view(t, i).len() == t.len() - i,
        forall|j: int| i <= j < t.len() ==> pairs_view(t, i)[j - i] == (t[j].0@, t[j].1@),
    decreases t.len() - i,
{
    if i < t.len() {
        lemma_pairs_view(t, i + 1);
    }
}

impl View for ServiceInfo {
    type V = ServiceInfoV;

    closed spec fn view(&self) -> ServiceInfoV {
        ServiceInfoV {
            name: self.name@,
            host: self.host@,
            port: self.port,
            weight_millis: self.weight_millis,
            health_status: self.health_status,
            last_health_check: self.last_health_check,
            tags: pairs_view(self.tags@, 0),
        }
    }
}

impl ServiceInfo {
    /// A fresh instance with unknown health and no tags; the default
    /// weight is one (1000 thousandths).
    pub fn new(name: String, host: String, port: u16, weight_millis: Option<u64>) -> (r:
        ServiceInfo)
        ensures
            r@.name == name@,
            r@.host == host@,
            r@.port == port,
            r@.weight_millis == match weight_millis {
                Some(w) => w,
                None => 1000u64,
            },
            r@.health_status == HealthStatus::Unknown,
            r@.tags == Seq::<(Seq<char>, Seq<char>)>::empty(),
    {
        ServiceInfo {
            name,
            host,
            port,
            weight_millis: match weight_millis {
                Some(w) => w,
                None => 1000,
            },
            health_status: HealthStatus::Unknown,
            last_health_check: now_unix_seconds(),
            tags: Vec::new(),
        }
    }

    pub fn name(&self) -> (r: &String)
        ensures
            r@ == self@.name,
    {
        &self.name
    }

    pub fn host(&self) -> (r: &String)
        ensures
            r@ == self@.host,
    {
        &self.host
    }

    pub fn port(&self) -> (r: u16)
        ensures
            r == self@.port,
    {
        self.port
    }

    pub fn weight_millis(&self) -> (r: u64)
        ensures
            r == self@.weight_millis,
    {
        self.weight_millis
    }

    pub fn health_status(&self) -> (r: HealthStatus)
        ensures
            r == self@.health_status,
    {
        self.health_status
    }

    pub fn last_health_check(&self) -> (r: u64)
        ensures
            r == self@.last_health_check,
    {
        self.last_health_check
    }

    /// Marks the instance healthy and refreshes the check timestamp.
    pub fn mark_healthy(&mut self)
        ensures
            final(self)@ == (ServiceInfoV {
                health_status: HealthStatus::Healthy,
                last_health_check: final(self)@.last_health_check,
                ..old(self)@
            }),
    {
        self.health_status = HealthStatus::Healthy;
        self.last_health_check = now_unix_seconds();
    }

    /// Marks the instance unhealthy and refreshes the check timestamp.
    pub fn mark_unhealthy(&mut self)
        ensures
            final(self)@ == (ServiceInfoV {
                health_status: HealthStatus::Unhealthy,
                last_health_check: final(self)@.last_health_check,
                ..old(self)@
            }),
    {
        self.health_status = HealthStatus::Unhealthy;
        self.last_health_check = now_unix_seconds();
    }

    pub fn is_healthy(&self) -> (r: bool)
        ensures
            r == (self@.health_status == HealthStatus::Healthy),
    {
        self.health_status == HealthStatus::Healthy
    }

    /// The instance's address as `host:port`.
    pub fn endpoint(&self) -> (r: String)
        ensures
            r@ == endpoint_chars(self@.host, self@.port),
    {
        let mut s = self.host.clone();
        s.append(":");
        push_dec_chars(&mut s, self.port as u64);
        proof {
            reveal_strlit(":");
            assert(s@ =~= endpoint_chars(self@.host, self@.port));
        }
        s
    }

    /// Sets the tag `key` to `value`: every previous entry for the key is
    /// dropped and the new pair appended.
    pub fn add_tag(&mut self, key: String, value: String)
        ensures
            final(self)@ == (ServiceInfoV { tags: final(self)@.tags, ..old(self)@ }),
            final(self)@.tags == tag_filter(old(self)@.tags, key@) + seq![(key@, value@)],
    {
        let mut kept: Vec<(String, String)> = Vec::new();
        let mut i: usize = 0;
        let ghost t0 = pairs_view(self.tags@, 0);
        proof {
            lemma_pairs_view(self.tags@, 0);
            assert(t0.take(0) =~= Seq::<(Seq<char>, Seq<char>)>::empty());
            assert(tag_filter(Seq::<(Seq<char>, Seq<char>)>::empty(), key@) =~= Seq::<
                (Seq<char>, Seq<char>),
            >::empty());
            assert(pairs_view(kept@, 0) =~= Seq::<(Seq<char>, Seq<char>)>::empty());
        }
        while i < self.tags.len()
            invariant
                i <= self.tags@.len(),
                t0 == pairs_view(self.tags@, 0),
                t0.len() == self.tags@.len(),
                forall|j: int| 0 <= j < self.tags@.len() ==> t0[j] == (
                    (#[trigger] self.tags@[j]).0@,
                    self.tags@[j].1@,
                ),
                pairs_view(kept@, 0) == tag_filter(t0.take(i as int), key@),
            decreases self.tags@.len() - i,
        {
            let ghost kv = pairs_view(kept@, 0);
            let ghost kept0 = kept@;
            proof {
                assert(t0.take(i + 1) =~= t0.take(i as int) + seq![t0[i as int]]);
                lemma_tag_filter_concat(t0.take(i as int), seq![t0[i as int]], key@);
                assert(seq![t0[i as int]].drop_first() =~= Seq::<(Seq<char>, Seq<char>)>::empty());
                assert(tag_filter(Seq::<(Seq<char>, Seq<char>)>::empty(), key@) =~= Seq::<
                    (Seq<char>, Seq<char>),
                >::empty());
            }
            if !self.tags[i].0.eq(&key) {
                let p = (self.tags[i].0.clone(), self.tags[i].1.clone());
                kept.push(p);
                proof {
                    assert(kept@.take(kept@.len() - 1) =~= kept0);
                    lemma_pairs_view_push(kept@, kv);
                    assert(tag_filter(seq![t0[i as int]], key@) =~= seq![t0[i as int]]);
                    assert(pairs_view(kept@, 0) =~= tag_filter(t0.take(i + 1), key@));
                }
            } else {
                proof {
                    assert(tag_filter(seq![t0[i as int]], key@) =~= Seq::<
                        (Seq<char>, Seq<char>),
                    >::empty());
                    assert(pairs_view(kept@, 0) =~= tag_filter(t0.take(i + 1), key@));
                }
            }
            i = i + 1;
        }
        proof {
            assert(t0.take(t0.len() as int) =~= t0);
        }
        let ghost kv = pairs_view(kept@, 0);
        let ghost kept0 = kept@;
        kept.push((key, value));
        proof {
            assert(kept@.take(kept@.len() - 1) =~= kept0);
            lemma_pairs_view_push(kept@, kv);
        }
        self.tags = kept;
    }

    /// Removes every entry for `key`, returning the value the key's
    /// first entry held.
    pub fn remove_tag(&mut self, key: &String) -> (r: Option<String>)
        ensures
            final(self)@ == (ServiceInfoV { tags: final(self)@.tags, ..old(self)@ }),
            final(self)@.tags == tag_filter(old(self)@.tags, key@),
            match r {
                Some(v) => tag_lookup(old(self)@.tags, key@) == Some(v@),
                None => tag_lookup(old(self)@.tags, key@) is None,
            },
    {
        let previous = match self.get_tag(key) {
            Some(v) => Some(v.clone()),
            None => None,
        };
        let mut kept: Vec<(String, String)> = Vec::new();
        let mut i: usize = 0;
        let ghost t0 = pairs_view(self.tags@, 0);
        proof {
            lemma_pairs_view(self.tags@, 0);
            assert(t0.take(0) =~= Seq::<(Seq<char>, Seq<char>)>::empty());
            assert(tag_filter(Seq::<(Seq<char>, Seq<char>)>::empty(), key@) =~= Seq::<
                (Seq<char>, Seq<char>),
            >::empty());
            assert(pairs_view(kept@, 0) =~= Seq::<(Seq<char>, Seq<char>)>::empty());
        }
        while i < self.tags.len()
            invariant
                i <= self.tags@.len(),
                t0 == pairs_view(self.tags@, 0),
                t0.len() == self.tags@.len(),
                forall|j: int| 0 <= j < self.tags@.len() ==> t0[j] == (
                    (#[trigger] self.tags@[j]).0@,
                    self.tags@[j].1@,
                ),
                pairs_view(kept@, 0) == tag_filter(t0.take(i as int), key@),
            decreases self.tags@.len() - i,
        {
            let ghost kv = pairs_view(kept@, 0);
            let ghost kept0 = kept@;
            proof {
                assert(t0.take(i + 1) =~= t0.take(i as int) + seq![t0[i as int]]);
                lemma_tag_filter_concat(t0.take(i as int), seq![t0[i as int]], key@);
                assert(seq![t0[i as int]].drop_first() =~= Seq::<(Seq<char>, Seq<char>)>::empty());
                assert(tag_filter(Seq::<(Seq<char>, Seq<char>)>::empty(), key@) =~= Seq::<
                    (Seq<char>, Seq<char>),
                >::empty());
            }
            if !self.tags[i].0.eq(key) {
                let p = (self.tags[i].0.clone(), self.tags[i].1.clone());
                kept.push(p);
                proof {
                    assert(kept@.take(kept@.len() - 1) =~= kept0);
                    lemma_pairs_view_push(kept@, kv);
                    assert(tag_filter(seq![t0[i as int]], key@) =~= seq![t0[i as int]]);
                    assert(pairs_view(kept@, 0) =~= tag_filter(t0.take(i + 1), key@));
                }
            } else {
                proof {
                    assert(tag_filter(seq![t0[i as int]], key@) =~= Seq::<
                        (Seq<char>, Seq<char>),
                    >::empty());
                    assert(pairs_view(kept@, 0) =~= tag_filter(t0.take(i + 1), key@));
                }
            }
            i = i + 1;
        }
        proof {
            assert(t0.take(t0.len() as int) =~= t0);
        }
        self.tags = kept;
        previous
    }

    /// Replaces all tags with the given pairs.
    pub fn set_tags(&mut self, tags: Vec<(String, String)>)
        ensures
            final(self)@ == (ServiceInfoV { tags: pairs_view(tags@, 0), ..old(self)@ }),
    {
        self.tags = tags;
    }

    /// The value of the tag `key`, if set.
    pub fn get_tag(&self, key: &String) -> (r: Option<&String>)
        ensures
            match r {
                Some(v) => tag_lookup(self@.tags, key@) == Some(v@),
                None => tag_lookup(self@.tags, key@) is None,
            },
    {
        let mut i: usize = 0;
        while i < self.tags.len()
            invariant
                i <= self.tags@.len(),
                tag_lookup(self@.tags, key@) == tag_lookup(pairs_view(self.tags@, i as int), key@),
            decreases self.tags@.len() - i,
        {
            proof {
                lemma_pairs_view(self.tags@, i as int);
                assert(pairs_view(self.tags@, i as int)[0] == (
                    self.tags@[i as int].0@,
                    self.tags@[i as int].1@,
                ));
                assert(pairs_view(self.tags@, i as int).drop_first() =~= pairs_view(
                    self.tags@,
                    i + 1,
                ));
            }
            if self.tags[i].0.eq(key) {
                return Some(&self.tags[i].1);
            }
            i = i + 1;
        }
        proof {
            lemma_pairs_view(self.tags@, self.tags@.len() as int);
        }
        None
    }

    /// All tags as key/value pairs.
    pub fn get_tags(&self) -> (r: &Vec<(String, String)>)
        ensures
            pairs_view(r@, 0) == self@.tags,
    {
        &self.tags
    }

    /// A copy whose model equals this instance's.
    pub fn duplicate(&self) -> (r: ServiceInfo)
        ensures
            r@ == self@,
    {
        let mut tags: Vec<(String, String)> = Vec::new();
        let mut i: usize = 0;
        while i < self.tags.len()
            invariant
                i <= self.tags@.len(),
                tags@.len() == i,
                forall|j: int|
                    0 <= j < i ==> (#[trigger] tags@[j]).0@ == self.tags@[j].0@ && tags@[j].1@
                        == self.tags@[j].1@,
            decreases self.tags@.len() - i,
        {
            tags.push((self.tags[i].0.clone(), self.tags[i].1.clone()));
            i = i + 1;
        }
        proof {
            lemma_pairs_view(tags@, 0);
            lemma_pairs_view(self.tags@, 0);
            assert(pairs_view(tags@, 0) =~= pairs_view(self.tags@, 0)) by {
                assert forall|j: int| 0 <= j < self.tags@.len() implies pairs_view(tags@, 0)[j]
                    == pairs_view(self.tags@, 0)[j] by {
                    assert(pairs_view(tags@, 0)[j - 0] == (tags@[j].0@, tags@[j].1@));
                    assert(pairs_view(self.tags@, 0)[j - 0] == (
                        self.tags@[j].0@,
                        self.tags@[j].1@,
                    ));
                }
            }
        }
        ServiceInfo {
            name: self.name.clone(),
            host: self.host.clone(),
            port: self.port,
            weight_millis: self.weight_millis,
            health_status: self.health_status,
            last_health_check: self.last_health_check,
            tags,
        }
    }

    /// A copy with the given health status and a fresh check timestamp.
    pub fn with_health_status(&self, status: HealthStatus) -> (r: ServiceInfo)
        ensures
            r@ == (ServiceInfoV {
                health_status: status,
                last_health_check: r@.last_health_check,
                ..self@
            }),
    {
        let mut c = self.duplicate();
        c.health_status = status;
        c.last_health_check = now_unix_seconds();
        c
    }
}

/// The value of the first tag named `k`, if any.
pub open spec fn tag_lookup(tags: Seq<(Seq<char>, Seq<char>)>, k: Seq<char>) -> Option<Seq<char>>
    decreases tags.len(),
{
    if tags.len() == 0 {
        None
    } else if tags[0].0 == k {
        Some(tags[0].1)
    } else {
        tag_lookup(tags.drop_first(), k)
    }
}

/// `tags` with every entry named `k` removed.
pub open spec fn tag_filter(tags: Seq<(Seq<char>, Seq<char>)>, k: Seq<char>) -> Seq<
    (Seq<char>, Seq<char>),
>
    decreases tags.len(),
{
    if tags.len() == 0 {
        Seq::empty()
    } else {
        (if tags[0].0 == k {
            Seq::empty()
        } else {
            seq![tags[0]]
        }) + tag_filter(tags.drop_first(), k)
    }
}

pub proof fn lemma_tag_filter_concat(a: Seq<(Seq<char>, Seq<char>)>, b: Seq<(Seq<char>, Seq<char>)>, k: Seq<char>)
    ensures
        tag_filter(a + b, k) == tag_filter(a, k) + tag_filter(b, k),
    decreases a.len(),
{
    if a.len() == 0 {
        assert(a + b =~= b);
        assert(tag_filter(a, k) + tag_filter(b, k) =~= tag_filter(b, k));
    } else {
        assert((a + b).drop_first() =~= a.drop_first() + b);
        lemma_tag_filter_concat(a.drop_first(), b, k);
        assert((a + b)[0] == a[0]);
        if a[0].0 == k {
            assert(tag_filter(a, k) + tag_filter(b, k) =~= tag_filter(a.drop_first(), k)
                + tag_filter(b, k));
            assert(tag_filter(a + b, k) =~= tag_filter(a.drop_first(), k) + tag_filter(b, k));
        } else {
            assert(seq![a[0]] + (tag_filter(a.drop_first(), k) + tag_filter(b, k)) =~= (seq![
                a[0],
            ] + tag_filter(a.drop_first(), k)) + tag_filter(b, k));
        }
    }
}

pub proof fn lemma_pairs_view_push(t: Seq<(String, String)>, prev: Seq<(Seq<char>, Seq<char>)>)
    requires
        t.len() >= 1,
        prev == pairs_view(t.take(t.len() - 1), 0),
    ensures
        pairs_view(t, 0) == prev + seq![(t[t.len() - 1].0@, t[t.len() - 1].1@)],
{
    let front = t.take(t.len() - 1);
    lemma_pairs_view(t, 0);
    lemma_pairs_view(front, 0);
    assert(pairs_view(t, 0) =~= prev + seq![(t[t.len() - 1].0@, t[t.len() - 1].1@)]) by {
        assert forall|j: int| 0 <= j < t.len() implies pairs_view(t, 0)[j] == (prev + seq![
            (t[t.len() - 1].0@, t[t.len() - 1].1@),
        ])[j] by {
            assert(pairs_view(t, 0)[j - 0] == (t[j].0@, t[j].1@));
            if j < t.len() - 1 {
                assert(pairs_view(front, 0)[j - 0] == (front[j].0@, front[j].1@));
            }
        }
    }
}

} // verus!
