//! Pluggable service discovery: a registry from service name to the
//! instances registered under it. The static backend is a local,
//! authoritative, insertion-ordered table whose queries return only
//! healthy instances; the local-advertisement backend shares the table
//! semantics and returns its cache unfiltered.

use vstd::prelude::*;
use crate::service::{ServiceInfo, ServiceInfoV, HealthStatus};
use crate::load_balancer::{views_of, lemma_views_of};

verus! {

/// The index of the first registry entry for `k`, or the length if none.
pub open spec fn d_key_index(es: Seq<(String, Vec<ServiceInfo>)>, k: Seq<char>) -> int
    decreases es.len(),
{
    if es.len() == 0 {
        0
    } else if es[0].0@ == k {
        0
    } else {
        1 + d_key_index(es.drop_first(), k)
    }
}

pub open spec fn d_has_key(es: Seq<(String, Vec<ServiceInfo>)>, k: Seq<char>) -> bool {
    d_key_index(es, k) < es.len()
}

/// The instances registered under `k`, in registration order.
pub open spec fn d_list_of(es: Seq<(String, Vec<ServiceInfo>)>, k: Seq<char>) -> Seq<ServiceInfo> {
    if d_has_key(es, k) {
        es[d_key_index(es, k)].1@
    } else {
        Seq::empty()
    }
}

/// The healthy instances of `s`, in order.
pub open spec fn healthy_of(s: Seq<ServiceInfoV>) -> Seq<ServiceInfoV>
    decreases s.len(),
{
    if s.len() == 0 {
        Seq::empty()
    } else {
        (if s[0].health_status == HealthStatus::Healthy {
            seq![s[0]]
        } else {
            Seq::empty()
        }) + healthy_of(s.drop_first())
    }
}

proof fn lemma_healthy_concat(a: Seq<ServiceInfoV>, b: Seq<ServiceInfoV>)
    ensures
        healthy_of(a + b) == healthy_of(a) + healthy_of(b),
    decreases a.len(),
{
    if a.len() == 0 {
        assert(a + b =~= b);
        assert(healthy_of(a) + healthy_of(b) =~= healthy_of(b));
    } else {
        assert((a + b).drop_first() =~= a.drop_first() + b);
        lemma_healthy_concat(a.drop_first(), b);
        assert((a + b)[0] == a[0]);
        if a[0].health_status == HealthStatus::Healthy {
            assert(seq![a[0]] + (healthy_of(a.drop_first()) + healthy_of(b)) =~= (seq![a[0]]
                + healthy_of(a.drop_first())) + healthy_of(b));
        } else {
            assert(healthy_of(a) + healthy_of(b) =~= healthy_of(a.drop_first()) + healthy_of(b));
            assert(healthy_of(a + b) =~= healthy_of(a.drop_first()) + healthy_of(b));
        }
    }
}

/// Looking a key up below a non-matching head entry is looking it up in
/// the tail.
proof fn lemma_d_step(es: Seq<(String, Vec<ServiceInfo>)>, k2: Seq<char>)
    requires
        es.len() > 0,
        es[0].0@ != k2,
    ensures
        d_list_of(es, k2) == d_list_of(es.drop_first(), k2),
{
    lemma_d_key_index(es, k2);
    lemma_d_key_index(es.drop_first(), k2);
    if d_has_key(es, k2) {
        assert(es[d_key_index(es, k2)] == es.drop_first()[d_key_index(es, k2) - 1]);
    }
}

proof fn lemma_d_key_index(es: Seq<(String, Vec<ServiceInfo>)>, k: Seq<char>)
    ensures
        0 <= d_key_index(es, k) <= es.len(),
        d_key_index(es, k) < es.len() ==> es[d_key_index(es, k)].0@ == k,
        forall|j: int| 0 <= j < d_key_index(es, k) ==> (#[trigger] es[j]).0@ != k,
    decreases es.len(),
{
    if es.len() > 0 && es[0].0@ != k {
        lemma_d_key_index(es.drop_first(), k);
        assert forall|j: int| 0 <= j < d_key_index(es, k) implies (#[trigger] es[j]).0@ != k by {
            if j > 0 {
                assert(es.drop_first()[j - 1] == es[j]);
            }
        }
    }
}

proof fn lemma_d_key_index_append(
    es: Seq<(String, Vec<ServiceInfo>)>,
    x: (String, Vec<ServiceInfo>),
    k: Seq<char>,
)
    requires
        !d_has_key(es, k),
        x.0@ == k,
    ensures
        d_key_index(es + seq![x], k) == es.len(),
        d_has_key(es + seq![x], k),
        d_list_of(es + seq![x], k) == x.1@,
        forall|k2: Seq<char>|
            k2 != k ==> #[trigger] d_list_of(es + seq![x], k2) == d_list_of(es, k2),
    decreases es.len(),
{
    lemma_d_key_index(es, k);
    if es.len() == 0 {
        assert(es + seq![x] =~= seq![x]);
        assert forall|k2: Seq<char>| k2 != k implies #[trigger] d_list_of(es + seq![x], k2)
            == d_list_of(es, k2) by {
            assert(seq![x].drop_first() =~= Seq::<(String, Vec<ServiceInfo>)>::empty());
            assert(d_key_index(Seq::<(String, Vec<ServiceInfo>)>::empty(), k2) == 0);
            assert(d_key_index(seq![x], k2) == 1);
            assert(d_key_index(es, k2) == 0);
        }
    } else {
        assert((es + seq![x])[0] == es[0]);
        assert((es + seq![x]).drop_first() =~= es.drop_first() + seq![x]);
        lemma_d_key_index(es.drop_first(), k);
        lemma_d_key_index_append(es.drop_first(), x, k);
        assert((es + seq![x])[es.len() as int] == x);
        assert forall|k2: Seq<char>| k2 != k implies #[trigger] d_list_of(es + seq![x], k2)
            == d_list_of(es, k2) by {
            lemma_d_key_index(es + seq![x], k2);
            lemma_d_key_index(es, k2);
            if es[0].0@ == k2 {
                assert(d_key_index(es + seq![x], k2) == 0);
                assert(d_key_index(es, k2) == 0);
            } else {
                assert(d_list_of(es.drop_first() + seq![x], k2) == d_list_of(es.drop_first(), k2));
                assert((es + seq![x]).drop_first() =~= es.drop_first() + seq![x]);
                lemma_d_step(es + seq![x], k2);
                lemma_d_step(es, k2);
            }
        }
    }
}

proof fn lemma_d_entries_update(
    es0: Seq<(String, Vec<ServiceInfo>)>,
    es1: Seq<(String, Vec<ServiceInfo>)>,
    ki: int,
    k: Seq<char>,
)
    requires
        es1.len() == es0.len(),
        0 <= ki < es0.len(),
        ki == d_key_index(es0, k),
        es1[ki].0@ == k,
        forall|j: int| 0 <= j < es0.len() && j != ki ==> es1[j] == es0[j],
    ensures
        d_key_index(es1, k) == ki,
        d_list_of(es1, k) == es1[ki].1@,
        d_list_of(es0, k) == es0[ki].1@,
    decreases ki,
{
    lemma_d_key_index(es0, k);
    if ki > 0 {
        assert(es1[0] == es0[0]);
        assert(es0[0].0@ != k);
        assert forall|j: int| 0 <= j < es0.len() - 1 && j != ki - 1 implies es1.drop_first()[j]
            == es0.drop_first()[j] by {
            assert(es1[j + 1] == es0[j + 1]);
        }
        assert(es1.drop_first()[ki - 1] == es1[ki]);
        lemma_d_entries_update(es0.drop_first(), es1.drop_first(), ki - 1, k);
    }
}

/// With unique keys, other keys' lists survive an update at `ki`
/// untouched.
proof fn lemma_d_other_keys(
    es0: Seq<(String, Vec<ServiceInfo>)>,
    es1: Seq<(String, Vec<ServiceInfo>)>,
    ki: int,
    k: Seq<char>,
    k2: Seq<char>,
)
    requires
        es1.len() == es0.len(),
        0 <= ki < es0.len(),
        es0[ki].0@ == k,
        es1[ki].0@ == k,
        k2 != k,
        forall|j: int| 0 <= j < es0.len() && j != ki ==> es1[j] == es0[j],
    ensures
        d_list_of(es1, k2) == d_list_of(es0, k2),
    decreases es0.len(),
{
    if es0.len() > 0 {
        if ki == 0 {
            assert(es1.drop_first() =~= es0.drop_first());
            lemma_d_step(es0, k2);
            lemma_d_step(es1, k2);
        } else {
            assert(es1[0] == es0[0]);
            if es0[0].0@ == k2 {
                assert(d_key_index(es0, k2) == 0);
                assert(d_key_index(es1, k2) == 0);
            } else {
                assert forall|j: int|
                    0 <= j < es0.len() - 1 && j != ki - 1 implies es1.drop_first()[j]
                    == es0.drop_first()[j] by {
                    assert(es1[j + 1] == es0[j + 1]);
                }
                assert(es1.drop_first()[ki - 1] == es1[ki]);
                assert(es0.drop_first()[ki - 1] == es0[ki]);
                lemma_d_other_keys(es0.drop_first(), es1.drop_first(), ki - 1, k, k2);
                lemma_d_step(es0, k2);
                lemma_d_step(es1, k2);
            }
        }
    }
}

/// Removing the entry at `ki` (keyed `k`, keys unique) leaves every other
/// key's list untouched and drops `k`.
proof fn lemma_d_remove(es: Seq<(String, Vec<ServiceInfo>)>, ki: int, k: Seq<char>)
    requires
        0 <= ki < es.len(),
        ki == d_key_index(es, k),
        es[ki].0@ == k,
        forall|i: int, j: int|
            0 <= i < j < es.len() ==> (#[trigger] es[i]).0@ != (#[trigger] es[j]).0@,
    ensures
        !d_has_key(es.remove(ki), k),
        forall|k2: Seq<char>|
            k2 != k ==> #[trigger] d_list_of(es.remove(ki), k2) == d_list_of(es, k2),
    decreases es.len(),
{
    lemma_d_key_index(es, k);
    let es2 = es.remove(ki);
    if ki == 0 {
        assert(es2 =~= es.drop_first());
        lemma_d_no_key(es.drop_first(), k);
        assert forall|k2: Seq<char>| k2 != k implies #[trigger] d_list_of(es2, k2) == d_list_of(
            es,
            k2,
        ) by {
            lemma_d_step(es, k2);
        }
    } else {
        assert(es2[0] == es[0]);
        assert(es2.drop_first() =~= es.drop_first().remove(ki - 1));
        assert(es.drop_first()[ki - 1] == es[ki]);
        assert forall|i: int, j: int|
            0 <= i < j < es.drop_first().len() implies (#[trigger] es.drop_first()[i]).0@ != (
        #[trigger] es.drop_first()[j]).0@ by {
            assert(es.drop_first()[i] == es[i + 1]);
            assert(es.drop_first()[j] == es[j + 1]);
        }
        lemma_d_remove(es.drop_first(), ki - 1, k);
        assert forall|k2: Seq<char>| k2 != k implies #[trigger] d_list_of(es2, k2) == d_list_of(
            es,
            k2,
        ) by {
            if es[0].0@ == k2 {
                assert(d_key_index(es, k2) == 0);
                assert(d_key_index(es2, k2) == 0);
            }
            if es[0].0@ != k2 {
                lemma_d_step(es, k2);
                lemma_d_step(es2, k2);
                assert(d_list_of(es.drop_first().remove(ki - 1), k2) == d_list_of(
                    es.drop_first(),
                    k2,
                ));
            }
        }
    }
}

/// A registry without an entry for `k`, where no suffix holds one either.
proof fn lemma_d_no_key(es: Seq<(String, Vec<ServiceInfo>)>, k: Seq<char>)
    requires
        forall|j: int| 0 <= j < es.len() ==> (#[trigger] es[j]).0@ != k,
    ensures
        !d_has_key(es, k),
    decreases es.len(),
{
    if es.len() > 0 {
        assert forall|j: int| 0 <= j < es.len() - 1 implies (#[trigger] es.drop_first()[j]).0@
            != k by {
            assert(es.drop_first()[j] == es[j + 1]);
        }
        lemma_d_no_key(es.drop_first(), k);
    }
}

/// The authoritative in-memory registry. Registration appends; queries
/// filter to healthy instances and never fail; unregistration drops a
/// name whole.
pub struct StaticDiscovery {
    entries: Vec<(String, Vec<ServiceInfo>)>,
}

impl StaticDiscovery {
    /// The registry's entries, in first-registration order of names.
    pub closed spec fn entries(&self) -> Seq<(String, Vec<ServiceInfo>)> {
        self.entries@
    }

    /// Service names never repeat among the entries.
    pub open spec fn wf(&self) -> bool {
        forall|i: int, j: int|
            0 <= i < j < self.entries().len() ==> (#[trigger] self.entries()[i]).0@ != (
            #[trigger] self.entries()[j]).0@
    }

    /// The instances registered under `name`.
    pub open spec fn instances_of(&self, name: Seq<char>) -> Seq<ServiceInfo> {
        d_list_of(self.entries(), name)
    }

    pub fn new() -> (r: StaticDiscovery)
        ensures
            r.entries() == Seq::<(String, Vec<ServiceInfo>)>::empty(),
            r.wf(),
    {
        StaticDiscovery { entries: Vec::new() }
    }

    /// The position of `name` among the entries, if present.
    #[verifier::loop_isolation(false)]
    fn find_key(&self, name: &String) -> (r: Option<usize>)
        ensures
            match r {
                Some(i) => i as int == d_key_index(self.entries(), name@) && d_has_key(
                    self.entries(),
                    name@,
                ),
                None => !d_has_key(self.entries(), name@),
            },
    {
        proof {
            assert(self.entries@.skip(0) =~= self.entries@);
        }
        let mut i: usize = 0;
        while i < self.entries.len()
            invariant
                i <= self.entries@.len(),
                d_key_index(self.entries@, name@) == i + d_key_index(
                    self.entries@.skip(i as int),
                    name@,
                ),
            decreases self.entries@.len() - i,
        {
            proof {
                assert(self.entries@.skip(i as int)[0] == self.entries@[i as int]);
                assert(self.entries@.skip(i as int).drop_first() =~= self.entries@.skip(i + 1));
            }
            if self.entries[i].0.eq(name) {
                return Some(i);
            }
            i = i + 1;
        }
        proof {
            assert(self.entries@.skip(self.entries@.len() as int) =~= Seq::<
                (String, Vec<ServiceInfo>),
            >::empty());
        }
        None
    }

    /// Registers one more instance under its service name, after any
    /// already registered there; every other name's instances are kept.
    #[verifier::loop_isolation(false)]
    pub fn register(&mut self, service: ServiceInfo)
        requires
            old(self).wf(),
        ensures
            final(self).wf(),
            final(self).instances_of(service@.name) == old(self).instances_of(service@.name)
                + seq![service],
            forall|k2: Seq<char>|
                k2 != service@.name ==> #[trigger] final(self).instances_of(k2) == old(
                    self,
                ).instances_of(k2),
    {
        let ghost es0 = self.entries@;
        let name = service.name().clone();
        let ki = match self.find_key(&name) {
            Some(i) => i,
            None => {
                let n = self.entries.len();
                let fresh: Vec<ServiceInfo> = Vec::new();
                self.entries.push((name, fresh));
                proof {
                    assert(self.entries@ =~= es0 + seq![self.entries@[n as int]]);
                    lemma_d_key_index_append(es0, self.entries@[n as int], service@.name);
                    lemma_d_key_index(es0, service@.name);
                    assert(d_list_of(es0, service@.name) =~= Seq::<ServiceInfo>::empty());
                    assert forall|i2: int, j2: int|
                        0 <= i2 < j2 < self.entries@.len() implies (#[trigger] self.entries@[
                    i2]).0@ != (#[trigger] self.entries@[j2]).0@ by {
                        if j2 < n {
                            assert(self.entries@[i2] == es0[i2]);
                            assert(self.entries@[j2] == es0[j2]);
                        } else {
                            assert(self.entries@[i2] == es0[i2]);
                        }
                    }
                }
                n
            },
        };
        proof {
            lemma_d_key_index(self.entries@, service@.name);
        }
        let ghost es1 = self.entries@;
        let ghost l0 = d_list_of(es1, service@.name);
        let mut entry = self.entries.remove(ki);
        entry.1.push(service);
        self.entries.insert(ki, entry);
        proof {
            assert(self.entries@ =~= es1.update(ki as int, self.entries@[ki as int]));
            lemma_d_entries_update(es1, self.entries@, ki as int, service@.name);
            assert(d_list_of(self.entries@, service@.name) =~= l0 + seq![service]);
            assert(d_list_of(es0, service@.name) == l0);
            assert forall|k2: Seq<char>|
                k2 != service@.name implies #[trigger] d_list_of(self.entries@, k2) == d_list_of(
                es0,
                k2,
            ) by {
                lemma_d_other_keys(es1, self.entries@, ki as int, service@.name, k2);
            }
            assert forall|i2: int, j2: int|
                0 <= i2 < j2 < self.entries@.len() implies (#[trigger] self.entries@[i2]).0@ != (
            #[trigger] self.entries@[j2]).0@ by {
                assert(es1[i2].0@ != es1[j2].0@);
                if i2 != ki {
                    assert(self.entries@[i2] == es1[i2]);
                }
                if j2 != ki {
                    assert(self.entries@[j2] == es1[j2]);
                }
            }
        }
    }

    /// The healthy instances registered under `name`, as copies; a name
    /// never registered yields the empty list, not an error.
    #[verifier::loop_isolation(false)]
    pub fn query(&self, name: &String) -> (r: Vec<ServiceInfo>)
        ensures
            views_of(r@, 0) == healthy_of(views_of(self.instances_of(name@), 0)),
    {
        let ghost l0 = self.instances_of(name@);
        let src: &Vec<ServiceInfo> = match self.find_key(name) {
            Some(i) => &self.entries[i].1,
            None => {
                proof {
                    assert(l0 =~= Seq::<ServiceInfo>::empty());
                    assert(views_of(l0, 0) =~= Seq::<ServiceInfoV>::empty());
                }
                let r: Vec<ServiceInfo> = Vec::new();
                proof {
                    assert(views_of(r@, 0) =~= Seq::<ServiceInfoV>::empty());
                }
                return r;
            },
        };
        proof {
            lemma_d_key_index(self.entries@, name@);
            assert(src@ == l0);
        }
        filter_healthy(src)
    }

    /// Every instance registered under `name`, as copies, healthy or not.
    pub fn query_all(&self, name: &String) -> (r: Vec<ServiceInfo>)
        ensures
            views_of(r@, 0) == views_of(self.instances_of(name@), 0),
    {
        let ghost l0 = self.instances_of(name@);
        let src: &Vec<ServiceInfo> = match self.find_key(name) {
            Some(i) => &self.entries[i].1,
            None => {
                proof {
                    assert(l0 =~= Seq::<ServiceInfo>::empty());
                    assert(views_of(l0, 0) =~= Seq::<ServiceInfoV>::empty());
                }
                let r: Vec<ServiceInfo> = Vec::new();
                proof {
                    assert(views_of(r@, 0) =~= Seq::<ServiceInfoV>::empty());
                }
                return r;
            },
        };
        proof {
            lemma_d_key_index(self.entries@, name@);
            assert(src@ == l0);
        }
        copy_instances(src)
    }

    /// Drops every instance registered under `name`; other names keep
    /// theirs.
    pub fn unregister(&mut self, name: String)
        requires
            old(self).wf(),
        ensures
            final(self).wf(),
            final(self).instances_of(name@) == Seq::<ServiceInfo>::empty(),
            forall|k2: Seq<char>|
                k2 != name@ ==> #[trigger] final(self).instances_of(k2) == old(self).instances_of(
                    k2,
                ),
    {
        let ghost es0 = self.entries@;
        let ki = match self.find_key(&name) {
            Some(i) => i,
            None => {
                return;
            },
        };
        proof {
            lemma_d_key_index(es0, name@);
        }
        self.entries.remove(ki);
        proof {
            lemma_d_remove(es0, ki as int, name@);
            assert(self.entries@ == es0.remove(ki as int));
            assert(d_list_of(self.entries@, name@) =~= Seq::<ServiceInfo>::empty());
            assert forall|i2: int, j2: int|
                0 <= i2 < j2 < self.entries@.len() implies (#[trigger] self.entries@[i2]).0@ != (
            #[trigger] self.entries@[j2]).0@ by {
                if i2 < ki {
                    assert(self.entries@[i2] == es0[i2]);
                } else {
                    assert(self.entries@[i2] == es0[i2 + 1]);
                }
                if j2 < ki {
                    assert(self.entries@[j2] == es0[j2]);
                } else {
                    assert(self.entries@[j2] == es0[j2 + 1]);
                }
            }
        }
    }

    /// Copies of every registered instance, over all names, in order.
    #[verifier::loop_isolation(false)]
    pub fn list_all_services(&self) -> (r: Vec<ServiceInfo>)
        ensures
            views_of(r@, 0) == all_views(self.entries(), 0),
    {
        let mut out: Vec<ServiceInfo> = Vec::new();
        let mut i: usize = 0;
        proof {
            lemma_views_of(out@, 0);
            assert(views_of(out@, 0) =~= Seq::<ServiceInfoV>::empty());
            assert(all_prefix(self.entries@, 0) =~= Seq::<ServiceInfoV>::empty());
        }
        while i < self.entries.len()
            invariant
                i <= self.entries@.len(),
                views_of(out@, 0) == all_prefix(self.entries@, i as int),
            decreases self.entries@.len() - i,
        {
            let more = copy_instances(&self.entries[i].1);
            let ghost out0 = out@;
            let mut more = more;
            let ghost more0 = more@;
            proof {
                lemma_views_of(more0, 0);
                lemma_views_of(self.entries@[i as int].1@, 0);
            }
            append_all(&mut out, &mut more);
            proof {
                assert forall|j: int|
                    0 <= j < self.entries@[i as int].1@.len() implies (#[trigger] out@[out0.len()
                    + j])@ == self.entries@[i as int].1@[j]@ by {
                    assert(out@[out0.len() + j] == more0[j]);
                    assert(views_of(more0, 0)[j - 0] == more0[j]@);
                    assert(views_of(self.entries@[i as int].1@, 0)[j - 0] == self.entries@[
                        i as int].1@[j]@);
                }
                lemma_views_concat(out0, out@, self.entries@[i as int].1@);
            }
            i = i + 1;
        }
        proof {
            lemma_all_prefix_full(self.entries@);
        }
        out
    }

    /// How many instances are registered under `name`.
    pub fn get_service_count(&self, name: &String) -> (r: usize)
        ensures
            r == self.instances_of(name@).len(),
    {
        match self.find_key(name) {
            Some(i) => {
                proof {
                    lemma_d_key_index(self.entries@, name@);
                }
                self.entries[i].1.len()
            },
            None => 0,
        }
    }

    /// Drops every registration.
    pub fn clear(&mut self)
        ensures
            final(self).entries() == Seq::<(String, Vec<ServiceInfo>)>::empty(),
            final(self).wf(),
    {
        self.entries = Vec::new();
    }
}

/// The views of all instances of all entries from `i` on, flattened.
pub open spec fn all_views(es: Seq<(String, Vec<ServiceInfo>)>, i: int) -> Seq<ServiceInfoV>
    decreases es.len() - i,
{
    if 0 <= i < es.len() {
        views_of(es[i].1@, 0) + all_views(es, i + 1)
    } else {
        Seq::empty()
    }
}

/// The views of all instances of the first `i` entries.
pub open spec fn all_prefix(es: Seq<(String, Vec<ServiceInfo>)>, i: int) -> Seq<ServiceInfoV>
    decreases i,
{
    if i <= 0 {
        Seq::empty()
    } else {
        all_prefix(es, i - 1) + views_of(es[i - 1].1@, 0)
    }
}

proof fn lemma_all_prefix_full(es: Seq<(String, Vec<ServiceInfo>)>)
    ensures
        all_prefix(es, es.len() as int) == all_views(es, 0),
{
    lemma_all_prefix_mid(es, 0);
}

proof fn lemma_all_prefix_mid(es: Seq<(String, Vec<ServiceInfo>)>, i: int)
    requires
        0 <= i <= es.len(),
    ensures
        all_prefix(es, es.len() as int) == all_prefix(es, i) + all_views(es, i),
    decreases es.len() - i,
{
    if i == es.len() {
        assert(all_views(es, i) =~= Seq::<ServiceInfoV>::empty());
        assert(all_prefix(es, i) + Seq::<ServiceInfoV>::empty() =~= all_prefix(es, i));
    } else {
        lemma_all_prefix_mid(es, i + 1);
        assert(all_prefix(es, i + 1) == all_prefix(es, i) + views_of(es[i].1@, 0));
        assert((all_prefix(es, i) + views_of(es[i].1@, 0)) + all_views(es, i + 1) =~= all_prefix(
            es,
            i,
        ) + (views_of(es[i].1@, 0) + all_views(es, i + 1)));
    }
}

proof fn lemma_views_concat(a: Seq<ServiceInfo>, c: Seq<ServiceInfo>, b: Seq<ServiceInfo>)
    requires
        c.len() == a.len() + b.len(),
        forall|j: int| 0 <= j < a.len() ==> c[j] == a[j],
        forall|j: int| 0 <= j < b.len() ==> (#[trigger] c[a.len() + j])@ == b[j]@,
    ensures
        views_of(c, 0) == views_of(a, 0) + views_of(b, 0),
{
    lemma_views_of(a, 0);
    lemma_views_of(b, 0);
    lemma_views_of(c, 0);
    assert(views_of(c, 0) =~= views_of(a, 0) + views_of(b, 0)) by {
        assert forall|j: int| 0 <= j < c.len() implies views_of(c, 0)[j] == (views_of(a, 0)
            + views_of(b, 0))[j] by {
            assert(views_of(c, 0)[j - 0] == c[j]@);
            if j < a.len() {
                assert(views_of(a, 0)[j - 0] == a[j]@);
            } else {
                assert(views_of(b, 0)[(j - a.len()) - 0] == b[j - a.len()]@);
                assert(c[a.len() + (j - a.len())]@ == b[j - a.len()]@);
            }
        }
    }
}

/// Moves all of `more` to the end of `out`.
#[verifier::loop_isolation(false)]
fn append_all(out: &mut Vec<ServiceInfo>, more: &mut Vec<ServiceInfo>)
    ensures
        final(out)@.len() == old(out)@.len() + old(more)@.len(),
        forall|j: int| 0 <= j < old(out)@.len() ==> final(out)@[j] == old(out)@[j],
        forall|j: int|
            0 <= j < old(more)@.len() ==> final(out)@[old(out)@.len() + j] == old(more)@[j],
{
    out.append(more);
}

/// Copies of the healthy instances of `src`, in order.
#[verifier::loop_isolation(false)]
fn filter_healthy(src: &Vec<ServiceInfo>) -> (r: Vec<ServiceInfo>)
    ensures
        views_of(r@, 0) == healthy_of(views_of(src@, 0)),
{
    let ghost sv = views_of(src@, 0);
    proof {
        lemma_views_of(src@, 0);
    }
    let mut out: Vec<ServiceInfo> = Vec::new();
    let mut i: usize = 0;
    proof {
        lemma_views_of(out@, 0);
        assert(sv.take(0) =~= Seq::<ServiceInfoV>::empty());
        assert(healthy_of(Seq::<ServiceInfoV>::empty()) =~= Seq::<ServiceInfoV>::empty());
        assert(views_of(out@, 0) =~= Seq::<ServiceInfoV>::empty());
    }
    while i < src.len()
        invariant
            i <= src@.len(),
            sv.len() == src@.len(),
            views_of(out@, 0) == healthy_of(sv.take(i as int)),
        decreases src@.len() - i,
    {
        let ghost out0 = out@;
        proof {
            assert(sv.take(i + 1) =~= sv.take(i as int) + seq![sv[i as int]]);
            lemma_healthy_concat(sv.take(i as int), seq![sv[i as int]]);
            assert(seq![sv[i as int]].drop_first() =~= Seq::<ServiceInfoV>::empty());
            assert(healthy_of(Seq::<ServiceInfoV>::empty()) =~= Seq::<ServiceInfoV>::empty());
            assert(sv[i as int] == src@[i as int]@);
        }
        if self_is_healthy(&src[i]) {
            let c = src[i].duplicate();
            out.push(c);
            proof {
                lemma_views_snoc(out@, out0);
                assert(healthy_of(seq![sv[i as int]]) =~= seq![sv[i as int]]);
                assert(views_of(out@, 0) =~= healthy_of(sv.take(i + 1)));
            }
        } else {
            proof {
                assert(healthy_of(seq![sv[i as int]]) =~= Seq::<ServiceInfoV>::empty());
                assert(views_of(out@, 0) =~= healthy_of(sv.take(i + 1)));
            }
        }
        i = i + 1;
    }
    proof {
        assert(sv.take(sv.len() as int) =~= sv);
    }
    out
}

fn self_is_healthy(s: &ServiceInfo) -> (r: bool)
    ensures
        r == (s@.health_status == HealthStatus::Healthy),
{
    s.is_healthy()
}

proof fn lemma_views_snoc(t: Seq<ServiceInfo>, prev: Seq<ServiceInfo>)
    requires
        t.len() == prev.len() + 1,
        forall|j: int| 0 <= j < prev.len() ==> t[j] == prev[j],
    ensures
        views_of(t, 0) == views_of(prev, 0) + seq![t[t.len() - 1]@],
{
    lemma_views_of(t, 0);
    lemma_views_of(prev, 0);
    assert(views_of(t, 0) =~= views_of(prev, 0) + seq![t[t.len() - 1]@]) by {
        assert forall|j: int| 0 <= j < t.len() implies views_of(t, 0)[j] == (views_of(prev, 0)
            + seq![t[t.len() - 1]@])[j] by {
            assert(views_of(t, 0)[j - 0] == t[j]@);
            if j < prev.len() {
                assert(views_of(prev, 0)[j - 0] == prev[j]@);
            }
        }
    }
}

/// Copies of all instances of `src`, in order.
#[verifier::loop_isolation(false)]
fn copy_instances(src: &Vec<ServiceInfo>) -> (r: Vec<ServiceInfo>)
    ensures
        views_of(r@, 0) == views_of(src@, 0),
        r@.len() == src@.len(),
{
    proof {
        lemma_views_of(src@, 0);
    }
    let mut out: Vec<ServiceInfo> = Vec::new();
    let mut i: usize = 0;
    while i < src.len()
        invariant
            i <= src@.len(),
            out@.len() == i,
            forall|j: int| 0 <= j < i ==> (#[trigger] out@[j])@ == src@[j]@,
        decreases src@.len() - i,
    {
        let c = src[i].duplicate();
        out.push(c);
        i = i + 1;
    }
    proof {
        lemma_views_of(out@, 0);
        assert(views_of(out@, 0) =~= views_of(src@, 0)) by {
            assert forall|j: int| 0 <= j < src@.len() implies views_of(out@, 0)[j] == views_of(
                src@,
                0,
            )[j] by {
                assert(views_of(out@, 0)[j - 0] == out@[j]@);
                assert(views_of(src@, 0)[j - 0] == src@[j]@);
            }
        }
    }
    out
}

/// The local-advertisement backend: the same authoritative local table,
/// under a configurable advertised service type. Network advertisement is
/// the hosting application's work and never affects the cache: queries
/// return the cached instances unfiltered.
pub struct MDNSDiscovery {
    table: StaticDiscovery,
    service_type: String,
}

impl MDNSDiscovery {
    pub closed spec fn table(&self) -> StaticDiscovery {
        self.table
    }

    pub closed spec fn service_type(&self) -> Seq<char> {
        self.service_type@
    }

    pub open spec fn wf(&self) -> bool {
        self.table().wf()
    }

    pub fn new() -> (r: MDNSDiscovery)
        ensures
            r.table().entries() == Seq::<(String, Vec<ServiceInfo>)>::empty(),
            r.service_type() == "_vsp._tcp.local."@,
            r.wf(),
    {
        MDNSDiscovery {
            table: StaticDiscovery::new(),
            service_type: String::from_str("_vsp._tcp.local."),
        }
    }

    pub fn register(&mut self, service: ServiceInfo)
        requires
            old(self).wf(),
        ensures
            final(self).wf(),
            final(self).service_type() == old(self).service_type(),
            final(self).table().instances_of(service@.name) == old(self).table().instances_of(
                service@.name,
            ) + seq![service],
            forall|k2: Seq<char>|
                k2 != service@.name ==> #[trigger] final(self).table().instances_of(k2) == old(
                    self,
                ).table().instances_of(k2),
    {
        self.table.register(service);
    }

    /// The cached instances under `name`, unfiltered: the local cache is
    /// authoritative for locally registered entries.
    pub fn query(&self, name: &String) -> (r: Vec<ServiceInfo>)
        ensures
            views_of(r@, 0) == views_of(self.table().instances_of(name@), 0),
    {
        self.table.query_all(name)
    }

    pub fn unregister(&mut self, name: String)
        requires
            old(self).wf(),
        ensures
            final(self).wf(),
            final(self).service_type() == old(self).service_type(),
            final(self).table().instances_of(name@) == Seq::<ServiceInfo>::empty(),
            forall|k2: Seq<char>|
                k2 != name@ ==> #[trigger] final(self).table().instances_of(k2) == old(
                    self,
                ).table().instances_of(k2),
    {
        self.table.unregister(name);
    }

    pub fn set_service_type(&mut self, service_type: String)
        ensures
            final(self).service_type() == service_type@,
            final(self).table() == old(self).table(),
    {
        self.service_type = service_type;
    }

    pub fn get_service_type(&self) -> (r: &String)
        ensures
            r@ == self.service_type(),
    {
        &self.service_type
    }

    /// Copies of every locally cached instance.
    pub fn list_local_services(&self) -> (r: Vec<ServiceInfo>)
        ensures
            views_of(r@, 0) == all_views(self.table().entries(), 0),
    {
        self.table.list_all_services()
    }
}

} // verus!
