//! Stream transports and the per-endpoint connection pool. A transport is
//! a connection handle with connect/send/close; the pool keeps a bounded,
//! reusable list of transports per `host:port` endpoint key.

use vstd::prelude::*;
use crate::VSPError;

verus! {

/// A TCP connection handle. Connection state is a flag: establishing and
/// tearing down the actual socket belongs to the hosting application.
pub struct TCPTransport {
    pub host: String,
    pub port: u16,
    pub connected: bool,
}

impl TCPTransport {
    pub fn new(host: String, port: u16) -> (r: TCPTransport)
        ensures
            r.host@ == host@,
            r.port == port,
            !r.connected,
    {
        TCPTransport { host, port, connected: false }
    }

    pub fn get_host(&self) -> (r: &String)
        ensures
            r@ == self.host@,
    {
        &self.host
    }

    pub fn get_port(&self) -> (r: u16)
        ensures
            r == self.port,
    {
        self.port
    }

    pub fn is_connected(&self) -> (r: bool)
        ensures
            r == self.connected,
    {
        self.connected
    }

    pub fn connect(&mut self)
        ensures
            *final(self) == (TCPTransport { connected: true, ..*old(self) }),
    {
        self.connected = true;
    }

    /// Accepts `data` for sending and reports how many bytes were taken;
    /// a closed transport cannot reach the peer.
    pub fn send(&self, data: &Vec<u8>) -> (r: Result<usize, VSPError>)
        ensures
            match r {
                Ok(n) => self.connected && n == data@.len(),
                Err(e) => !self.connected && e == VSPError::RemoteUnavailable,
            },
    {
        if self.connected {
            Ok(data.len())
        } else {
            Err(VSPError::RemoteUnavailable)
        }
    }

    pub fn close(&mut self)
        ensures
            *final(self) == (TCPTransport { connected: false, ..*old(self) }),
    {
        self.connected = false;
    }

    pub fn is_closed(&self) -> (r: bool)
        ensures
            r == !self.connected,
    {
        !self.connected
    }

    pub fn get_type(&self) -> (r: &'static str)
        ensures
            r@ == "tcp"@,
    {
        "tcp"
    }
}

/// A WebSocket connection handle, state-only like [`TCPTransport`].
pub struct WebSocketTransport {
    pub url: String,
    pub connected: bool,
}

impl WebSocketTransport {
    pub fn new(url: String) -> (r: WebSocketTransport)
        ensures
            r.url@ == url@,
            !r.connected,
    {
        WebSocketTransport { url, connected: false }
    }

    pub fn get_url(&self) -> (r: &String)
        ensures
            r@ == self.url@,
    {
        &self.url
    }

    pub fn is_connected(&self) -> (r: bool)
        ensures
            r == self.connected,
    {
        self.connected
    }

    pub fn connect(&mut self)
        ensures
            *final(self) == (WebSocketTransport { connected: true, ..*old(self) }),
    {
        self.connected = true;
    }

    pub fn send(&self, data: &Vec<u8>) -> (r: Result<usize, VSPError>)
        ensures
            match r {
                Ok(n) => self.connected && n == data@.len(),
                Err(e) => !self.connected && e == VSPError::RemoteUnavailable,
            },
    {
        if self.connected {
            Ok(data.len())
        } else {
            Err(VSPError::RemoteUnavailable)
        }
    }

    pub fn close(&mut self)
        ensures
            *final(self) == (WebSocketTransport { connected: false, ..*old(self) }),
    {
        self.connected = false;
    }

    pub fn is_closed(&self) -> (r: bool)
        ensures
            r == !self.connected,
    {
        !self.connected
    }

    pub fn get_type(&self) -> (r: &'static str)
        ensures
            r@ == "websocket"@,
    {
        "websocket"
    }
}

// ---------------------------------------------------------------------------
// Pool model
// ---------------------------------------------------------------------------

/// No key repeats among `es`, and no list exceeds `max`.
pub open spec fn wf_entries(es: Seq<(String, Vec<TCPTransport>)>, max: int) -> bool {
    &&& forall|i: int, j: int|
        0 <= i < j < es.len() ==> (#[trigger] es[i]).0@ != (#[trigger] es[j]).0@
    &&& forall|i: int| 0 <= i < es.len() ==> (#[trigger] es[i]).1@.len() <= max
}

/// The index of the first entry keyed `k`, or the length if none.
pub open spec fn key_index(es: Seq<(String, Vec<TCPTransport>)>, k: Seq<char>) -> int
    decreases es.len(),
{
    if es.len() == 0 {
        0
    } else if es[0].0@ == k {
        0
    } else {
        1 + key_index(es.drop_first(), k)
    }
}

pub open spec fn has_key(es: Seq<(String, Vec<TCPTransport>)>, k: Seq<char>) -> bool {
    key_index(es, k) < es.len()
}

/// The transports pooled under key `k` (empty if the key is absent).
pub open spec fn list_of(es: Seq<(String, Vec<TCPTransport>)>, k: Seq<char>) -> Seq<TCPTransport> {
    if has_key(es, k) {
        es[key_index(es, k)].1@
    } else {
        Seq::empty()
    }
}

proof fn lemma_key_index(es: Seq<(String, Vec<TCPTransport>)>, k: Seq<char>)
    ensures
        0 <= key_index(es, k) <= es.len(),
        key_index(es, k) < es.len() ==> es[key_index(es, k)].0@ == k,
        forall|j: int| 0 <= j < key_index(es, k) ==> (#[trigger] es[j]).0@ != k,
    decreases es.len(),
{
    if es.len() > 0 && es[0].0@ != k {
        lemma_key_index(es.drop_first(), k);
        assert forall|j: int| 0 <= j < key_index(es, k) implies (#[trigger] es[j]).0@ != k by {
            if j > 0 {
                assert(es.drop_first()[j - 1] == es[j]);
            }
        }
    }
}

/// Looking a key up below a non-matching head entry is looking it up in
/// the tail.
proof fn lemma_lookup_step(es: Seq<(String, Vec<TCPTransport>)>, k2: Seq<char>)
    requires
        es.len() > 0,
        es[0].0@ != k2,
    ensures
        list_of(es, k2) == list_of(es.drop_first(), k2),
{
    lemma_key_index(es, k2);
    lemma_key_index(es.drop_first(), k2);
    if has_key(es, k2) {
        assert(es[key_index(es, k2)] == es.drop_first()[key_index(es, k2) - 1]);
    }
}

/// Appending an entry under a fresh key puts it last in the key order and
/// leaves every other key's list untouched.
proof fn lemma_key_index_append(
    es: Seq<(String, Vec<TCPTransport>)>,
    x: (String, Vec<TCPTransport>),
    k: Seq<char>,
)
    requires
        !has_key(es, k),
        x.0@ == k,
    ensures
        key_index(es + seq![x], k) == es.len(),
        has_key(es + seq![x], k),
        list_of(es + seq![x], k) == x.1@,
        forall|k2: Seq<char>|
            k2 != k ==> #[trigger] list_of(es + seq![x], k2) == list_of(es, k2),
    decreases es.len(),
{
    lemma_key_index(es, k);
    if es.len() == 0 {
        assert(es + seq![x] =~= seq![x]);
        assert forall|k2: Seq<char>| k2 != k implies #[trigger] list_of(es + seq![x], k2)
            == list_of(es, k2) by {
            assert(seq![x].drop_first() =~= Seq::<(String, Vec<TCPTransport>)>::empty());
            assert(key_index(Seq::<(String, Vec<TCPTransport>)>::empty(), k2) == 0);
            assert(key_index(seq![x], k2) == 1);
            assert(key_index(es, k2) == 0);
        }
    } else {
        assert((es + seq![x])[0] == es[0]);
        assert((es + seq![x]).drop_first() =~= es.drop_first() + seq![x]);
        lemma_key_index(es.drop_first(), k);
        lemma_key_index_append(es.drop_first(), x, k);
        assert((es + seq![x])[es.len() as int] == x);
        assert forall|k2: Seq<char>| k2 != k implies #[trigger] list_of(es + seq![x], k2)
            == list_of(es, k2) by {
            lemma_key_index(es + seq![x], k2);
            lemma_key_index(es, k2);
            if es[0].0@ == k2 {
                assert(key_index(es + seq![x], k2) == 0);
                assert(key_index(es, k2) == 0);
            } else {
                assert(list_of(es.drop_first() + seq![x], k2) == list_of(es.drop_first(), k2));
                assert((es + seq![x]).drop_first() =~= es.drop_first() + seq![x]);
                lemma_lookup_step(es + seq![x], k2);
                lemma_lookup_step(es, k2);
            }
        }
    }
}

/// With the entry at `ki` replaced (same key), every other key's list
/// survives untouched.
proof fn lemma_other_keys(
    es0: Seq<(String, Vec<TCPTransport>)>,
    es1: Seq<(String, Vec<TCPTransport>)>,
    ki: int,
    k: Seq<char>,
    k2: Seq<char>,
)
    requires
        es1.len() == es0.len(),
        0 <= ki < es0.len(),
        es0[ki].0@ == k,
        es1[ki].0@ == k,
        k2 != k,
        forall|j: int| 0 <= j < es0.len() && j != ki ==> es1[j] == es0[j],
    ensures
        list_of(es1, k2) == list_of(es0, k2),
    decreases es0.len(),
{
    if es0.len() > 0 {
        if ki == 0 {
            assert(es1.drop_first() =~= es0.drop_first());
            lemma_lookup_step(es0, k2);
            lemma_lookup_step(es1, k2);
        } else {
            assert(es1[0] == es0[0]);
            if es0[0].0@ == k2 {
                assert(key_index(es0, k2) == 0);
                assert(key_index(es1, k2) == 0);
            } else {
                assert forall|j: int|
                    0 <= j < es0.len() - 1 && j != ki - 1 implies es1.drop_first()[j]
                    == es0.drop_first()[j] by {
                    assert(es1[j + 1] == es0[j + 1]);
                }
                assert(es1.drop_first()[ki - 1] == es1[ki]);
                assert(es0.drop_first()[ki - 1] == es0[ki]);
                lemma_other_keys(es0.drop_first(), es1.drop_first(), ki - 1, k, k2);
                lemma_lookup_step(es0, k2);
                lemma_lookup_step(es1, k2);
            }
        }
    }
}

/// Replacing one entry changes the transport total by that entry's list
/// growth alone.
proof fn lemma_total_conns_update(
    es0: Seq<(String, Vec<TCPTransport>)>,
    es1: Seq<(String, Vec<TCPTransport>)>,
    ki: int,
)
    requires
        es1.len() == es0.len(),
        0 <= ki < es0.len(),
        forall|j: int| 0 <= j < es0.len() && j != ki ==> es1[j] == es0[j],
    ensures
        total_conns(es1) == total_conns(es0) - es0[ki].1@.len() + es1[ki].1@.len(),
    decreases ki,
{
    if ki == 0 {
        assert(es1.drop_first() =~= es0.drop_first());
    } else {
        assert(es1[0] == es0[0]);
        assert forall|j: int| 0 <= j < es0.len() - 1 && j != ki - 1 implies es1.drop_first()[j]
            == es0.drop_first()[j] by {
            assert(es1[j + 1] == es0[j + 1]);
        }
        assert(es1.drop_first()[ki - 1] == es1[ki]);
        assert(es0.drop_first()[ki - 1] == es0[ki]);
        lemma_total_conns_update(es0.drop_first(), es1.drop_first(), ki - 1);
    }
}

proof fn lemma_total_conns_append(es: Seq<(String, Vec<TCPTransport>)>, x: (String, Vec<TCPTransport>))
    ensures
        total_conns(es + seq![x]) == total_conns(es) + x.1@.len(),
{
    lemma_total_conns_snoc(es + seq![x]);
    assert((es + seq![x]).take(es.len() as int) =~= es);
    assert((es + seq![x])[es.len() as int] == x);
}

/// Replacing the entry at a key's own index keeps the key order and every
/// other entry.
proof fn lemma_entries_update(
    es0: Seq<(String, Vec<TCPTransport>)>,
    es1: Seq<(String, Vec<TCPTransport>)>,
    ki: int,
    k: Seq<char>,
)
    requires
        es1.len() == es0.len(),
        0 <= ki < es0.len(),
        ki == key_index(es0, k),
        es1[ki].0@ == k,
        forall|j: int| 0 <= j < es0.len() && j != ki ==> es1[j] == es0[j],
    ensures
        key_index(es1, k) == ki,
        list_of(es1, k) == es1[ki].1@,
        list_of(es0, k) == es0[ki].1@,
    decreases ki,
{
    lemma_key_index(es0, k);
    if ki > 0 {
        assert(es1[0] == es0[0]);
        assert(es0[0].0@ != k);
        assert forall|j: int| 0 <= j < es0.len() - 1 && j != ki - 1 implies es1.drop_first()[j]
            == es0.drop_first()[j] by {
            assert(es1[j + 1] == es0[j + 1]);
        }
        assert(es1.drop_first()[ki - 1] == es1[ki]);
        lemma_entries_update(es0.drop_first(), es1.drop_first(), ki - 1, k);
    }
}

/// The index of the first connected transport, or the length if none.
pub open spec fn first_open(ts: Seq<TCPTransport>) -> int
    decreases ts.len(),
{
    if ts.len() == 0 {
        0
    } else if ts[0].connected {
        0
    } else {
        1 + first_open(ts.drop_first())
    }
}

proof fn lemma_first_open_at(ts: Seq<TCPTransport>, j: int)
    requires
        0 <= j < ts.len(),
        ts[j].connected,
        forall|m: int| 0 <= m < j ==> !(#[trigger] ts[m]).connected,
    ensures
        first_open(ts) == j,
    decreases j,
{
    if j > 0 {
        assert forall|m: int| 0 <= m < j - 1 implies !(#[trigger] ts.drop_first()[m]).connected by {
            assert(ts.drop_first()[m] == ts[m + 1]);
        }
        assert(ts.drop_first()[j - 1] == ts[j]);
        lemma_first_open_at(ts.drop_first(), j - 1);
    }
}

proof fn lemma_first_open_none(ts: Seq<TCPTransport>)
    requires
        forall|m: int| 0 <= m < ts.len() ==> !(#[trigger] ts[m]).connected,
    ensures
        first_open(ts) == ts.len(),
    decreases ts.len(),
{
    if ts.len() > 0 {
        assert forall|m: int| 0 <= m < ts.len() - 1 implies !(#[trigger] ts.drop_first()[
            m]).connected by {
            assert(ts.drop_first()[m] == ts[m + 1]);
        }
        lemma_first_open_none(ts.drop_first());
    }
}

/// The connected transports of `ts`, in order.
pub open spec fn open_only(ts: Seq<TCPTransport>) -> Seq<TCPTransport>
    decreases ts.len(),
{
    if ts.len() == 0 {
        Seq::empty()
    } else {
        (if ts[0].connected {
            seq![ts[0]]
        } else {
            Seq::empty()
        }) + open_only(ts.drop_first())
    }
}

proof fn lemma_open_only_len(ts: Seq<TCPTransport>)
    ensures
        open_only(ts).len() <= ts.len(),
    decreases ts.len(),
{
    if ts.len() > 0 {
        lemma_open_only_len(ts.drop_first());
    }
}

proof fn lemma_open_only_concat(a: Seq<TCPTransport>, b: Seq<TCPTransport>)
    ensures
        open_only(a + b) == open_only(a) + open_only(b),
    decreases a.len(),
{
    if a.len() == 0 {
        assert(a + b =~= b);
        assert(open_only(a) + open_only(b) =~= open_only(b));
    } else {
        assert((a + b).drop_first() =~= a.drop_first() + b);
        lemma_open_only_concat(a.drop_first(), b);
        assert((a + b)[0] == a[0]);
        if a[0].connected {
            assert(seq![a[0]] + (open_only(a.drop_first()) + open_only(b)) =~= (seq![a[0]]
                + open_only(a.drop_first())) + open_only(b));
        } else {
            assert(open_only(a) + open_only(b) =~= open_only(a.drop_first()) + open_only(b));
            assert(open_only(a + b) =~= open_only(a.drop_first()) + open_only(b));
        }
    }
}

/// The total transport count over all entries.
pub open spec fn total_conns(es: Seq<(String, Vec<TCPTransport>)>) -> int
    decreases es.len(),
{
    if es.len() == 0 {
        0
    } else {
        es[0].1@.len() + total_conns(es.drop_first())
    }
}

proof fn lemma_total_conns_nonneg(es: Seq<(String, Vec<TCPTransport>)>)
    ensures
        total_conns(es) >= 0,
    decreases es.len(),
{
    if es.len() > 0 {
        lemma_total_conns_nonneg(es.drop_first());
    }
}

proof fn lemma_total_conns_step(es: Seq<(String, Vec<TCPTransport>)>, i: int)
    requires
        0 <= i < es.len(),
    ensures
        total_conns(es.skip(i)) == es[i].1@.len() + total_conns(es.skip(i + 1)),
{
    assert(es.skip(i)[0] == es[i]);
    assert(es.skip(i).drop_first() =~= es.skip(i + 1));
}

/// Per-endpoint pooling of transports, bounded by `max_connections` for
/// each endpoint key.
pub struct ConnectionPool {
    entries: Vec<(String, Vec<TCPTransport>)>,
    max_connections: usize,
}

impl ConnectionPool {
    /// The pooled entries, in insertion order of their endpoint keys.
    pub closed spec fn entries(&self) -> Seq<(String, Vec<TCPTransport>)> {
        self.entries@
    }

    pub closed spec fn max_connections(&self) -> int {
        self.max_connections as int
    }

    /// No endpoint key repeats, and no endpoint holds more transports
    /// than the bound: more than `max_connections` transports for one
    /// endpoint never exist.
    pub open spec fn wf(&self) -> bool {
        wf_entries(self.entries(), self.max_connections())
    }

    pub fn new(max_connections: Option<usize>) -> (r: ConnectionPool)
        ensures
            r.entries() == Seq::<(String, Vec<TCPTransport>)>::empty(),
            r.max_connections() == match max_connections {
                Some(m) => m as int,
                None => 10,
            },
            r.wf(),
    {
        ConnectionPool {
            entries: Vec::new(),
            max_connections: match max_connections {
                Some(m) => m,
                None => 10,
            },
        }
    }

    /// The position of `endpoint` among the entries, if present.
    #[verifier::loop_isolation(false)]
    fn find_key(&self, endpoint: &String) -> (r: Option<usize>)
        ensures
            match r {
                Some(i) => i as int == key_index(self.entries(), endpoint@) && has_key(
                    self.entries(),
                    endpoint@,
                ),
                None => !has_key(self.entries(), endpoint@),
            },
    {
        proof {
            assert(self.entries@.skip(0) =~= self.entries@);
        }
        let mut i: usize = 0;
        while i < self.entries.len()
            invariant
                i <= self.entries@.len(),
                key_index(self.entries@, endpoint@) == i + key_index(
                    self.entries@.skip(i as int),
                    endpoint@,
                ),
            decreases self.entries@.len() - i,
        {
            proof {
                assert(self.entries@.skip(i as int)[0] == self.entries@[i as int]);
                assert(self.entries@.skip(i as int).drop_first() =~= self.entries@.skip(i + 1));
            }
            if self.entries[i].0.eq(endpoint) {
                return Some(i);
            }
            i = i + 1;
        }
        proof {
            assert(self.entries@.skip(self.entries@.len() as int) =~= Seq::<
                (String, Vec<TCPTransport>),
            >::empty());
        }
        None
    }

    /// Hands out a transport for `endpoint` (the `host:port` of `host`
    /// and `port`): the first still-open pooled one if any; otherwise,
    /// below the bound, a fresh (not yet connected) transport; at the
    /// bound, nothing — backpressure, not an error. The result is the
    /// transport's index in the endpoint's list.
    #[verifier::loop_isolation(false)]
    pub fn get_transport_internal(&mut self, endpoint: &String, host: &String, port: u16) -> (r:
        Option<usize>)
        requires
            old(self).wf(),
        ensures
            final(self).wf(),
            final(self).max_connections() == old(self).max_connections(),
            ({
                let l0 = list_of(old(self).entries(), endpoint@);
                let l1 = list_of(final(self).entries(), endpoint@);
                &&& forall|k2: Seq<char>|
                    k2 != endpoint@ ==> #[trigger] list_of(final(self).entries(), k2) == list_of(
                        old(self).entries(),
                        k2,
                    )
                &&& final(self).entries().len() == old(self).entries().len() + (if has_key(
                    old(self).entries(),
                    endpoint@,
                ) {
                    0int
                } else {
                    1int
                })
                &&& forall|i2: int|
                    0 <= i2 < old(self).entries().len() ==> (#[trigger] final(self).entries()[
                    i2]).0@ == old(self).entries()[i2].0@
                &&& match r {
                    Some(i) => if first_open(l0) < l0.len() {
                        i as int == first_open(l0) && l1 == l0 && l1[i as int].connected
                            && final(self).entries() == old(self).entries()
                            && total_conns(final(self).entries())
                            == total_conns(old(self).entries())
                    } else {
                        l0.len() < old(self).max_connections() && i as int == l0.len() && l1.len()
                            == l0.len() + 1 && l1.take(l0.len() as int) == l0 && l1[i as int].host@
                            == host@ && l1[i as int].port == port && !l1[i as int].connected
                            && total_conns(final(self).entries()) == total_conns(
                            old(self).entries(),
                        ) + 1
                    },
                    None => first_open(l0) == l0.len() && l0.len() >= old(self).max_connections()
                        && l1 == l0 && total_conns(final(self).entries()) == total_conns(
                        old(self).entries(),
                    ) && (has_key(old(self).entries(), endpoint@)
                        ==> final(self).entries() == old(self).entries()),
                }
            }),
    {
        let ghost es0 = self.entries@;
        let ghost l0 = list_of(es0, endpoint@);
        let ki = match self.find_key(endpoint) {
            Some(i) => i,
            None => {
                let n = self.entries.len();
                let fresh: Vec<TCPTransport> = Vec::new();
                let kclone = endpoint.clone();
                self.entries.push((kclone, fresh));
                proof {
                    assert(self.entries@ =~= es0 + seq![self.entries@[n as int]]);
                    lemma_key_index_append(es0, self.entries@[n as int], endpoint@);
                    lemma_key_index(es0, endpoint@);
                    assert(list_of(es0, endpoint@) =~= Seq::<TCPTransport>::empty());
                    assert(wf_entries(self.entries@, self.max_connections as int)) by {
                        assert(forall|j: int|
                            0 <= j < es0.len() ==> (#[trigger] es0[j]).0@ != endpoint@);
                        assert(self.entries@[n as int].1@.len() == 0);
                        assert(forall|j: int|
                            0 <= j < n ==> (#[trigger] self.entries@[j]) == es0[j]);
                    }
                    lemma_total_conns_append(es0, self.entries@[n as int]);
                    assert(total_conns(self.entries@) == total_conns(es0));
                    assert(forall|j: int|
                        0 <= j < n ==> (#[trigger] self.entries@[j]) == es0[j]);
                }
                n
            },
        };
        proof {
            lemma_key_index(self.entries@, endpoint@);
            assert(list_of(self.entries@, endpoint@) == l0);
        }
        let ghost es1 = self.entries@;
        proof {
            assert(wf_entries(es1, self.max_connections as int));
        }
        let mut entry = self.entries.remove(ki);
        proof {
            assert(entry.1@ == l0);
            assert(entry.0@ == endpoint@);
        }
        let mut j: usize = 0;
        while j < entry.1.len()
            invariant
                j <= entry.1@.len(),
                entry.1@ == l0,
                entry.0 == es1[ki as int].0,
                entry.1@ == es1[ki as int].1@,
                self.entries@ == es1.remove(ki as int),
                self.max_connections == old(self).max_connections,
                forall|m: int| 0 <= m < j ==> !(#[trigger] l0[m]).connected,
            decreases entry.1@.len() - j,
        {
            if entry.1[j].is_connected() {
                proof {
                    lemma_first_open_at(l0, j as int);
                }
                self.entries.insert(ki, entry);
                proof {
                    assert(self.entries@ =~= es1);
                    assert(wf_entries(self.entries@, self.max_connections as int));
                }
                return Some(j);
            }
            j = j + 1;
        }
        proof {
            lemma_first_open_none(l0);
        }
        if entry.1.len() < self.max_connections {
            let t = TCPTransport::new(host.clone(), port);
            entry.1.push(t);
            let ghost newlist = entry.1@;
            let ghost newkey = entry.0@;
            proof {
                assert(newkey == endpoint@);
            }
            self.entries.insert(ki, entry);
            proof {
                assert(self.entries@ =~= es1.update(ki as int, self.entries@[ki as int]));
                lemma_entries_update(es1, self.entries@, ki as int, endpoint@);
                assert(list_of(self.entries@, endpoint@) == newlist);
                assert(newlist.take(l0.len() as int) =~= l0);
                assert forall|k2: Seq<char>|
                    k2 != endpoint@ implies #[trigger] list_of(self.entries@, k2) == list_of(
                    es1,
                    k2,
                ) by {
                    lemma_other_keys(es1, self.entries@, ki as int, endpoint@, k2);
                }
                lemma_total_conns_update(es1, self.entries@, ki as int);
                assert(total_conns(self.entries@) == total_conns(es1) + 1);
                assert forall|i2: int|
                    0 <= i2 < es0.len() implies (#[trigger] self.entries@[i2]).0@
                    == es0[i2].0@ by {
                    if i2 != ki {
                        assert(self.entries@[i2] == es1[i2]);
                    }
                }
            }
            let idx = self.entries[ki].1.len() - 1;
            Some(idx)
        } else {
            self.entries.insert(ki, entry);
            proof {
                assert(self.entries@ =~= es1);
            }
            None
        }
    }

    /// Connects (if necessary) the pooled transport at `idx` under
    /// `endpoint` and hands it `data` to send, reporting the byte count
    /// taken. An index with no pooled transport behind it is unknown.
    #[verifier::loop_isolation(false)]
    pub fn send_through(&mut self, endpoint: &String, idx: usize, data: &Vec<u8>) -> (r: Result<
        usize,
        VSPError,
    >)
        requires
            old(self).wf(),
        ensures
            final(self).wf(),
            final(self).max_connections() == old(self).max_connections(),
            ({
                let l0 = list_of(old(self).entries(), endpoint@);
                let l1 = list_of(final(self).entries(), endpoint@);
                &&& forall|k2: Seq<char>|
                    k2 != endpoint@ ==> #[trigger] list_of(final(self).entries(), k2) == list_of(
                        old(self).entries(),
                        k2,
                    )
                &&& final(self).entries().len() == old(self).entries().len()
                &&& forall|i2: int|
                    0 <= i2 < old(self).entries().len() ==> (#[trigger] final(self).entries()[
                    i2]).0@ == old(self).entries()[i2].0@
                &&& total_conns(final(self).entries()) == total_conns(old(self).entries())
                &&& match r {
                    Ok(n) => idx < l0.len() && n == data@.len() && l1.len() == l0.len() && l1[
                        idx as int].connected && l1[idx as int].host@ == l0[idx as int].host@ && l1[
                        idx as int].port == l0[idx as int].port && forall|m: int|
                        0 <= m < l0.len() && m != idx ==> l1[m] == l0[m],
                    Err(e) => idx >= l0.len() && e == VSPError::NotFound && final(self).entries()
                        == old(self).entries(),
                }
            }),
    {
        let ghost es0 = self.entries@;
        let ghost l0 = list_of(es0, endpoint@);
        let ki = match self.find_key(endpoint) {
            Some(i) => i,
            None => {
                return Err(VSPError::NotFound);
            },
        };
        proof {
            lemma_key_index(self.entries@, endpoint@);
        }
        let mut entry = self.entries.remove(ki);
        proof {
            assert(entry.1@ == l0);
        }
        if idx >= entry.1.len() {
            self.entries.insert(ki, entry);
            proof {
                assert(self.entries@ =~= es0);
            }
            return Err(VSPError::NotFound);
        }
        let mut t = entry.1.remove(idx);
        if !t.is_connected() {
            t.connect();
        }
        let n = match t.send(data) {
            Ok(n) => n,
            Err(_) => 0,
        };
        entry.1.insert(idx, t);
        let ghost newlist = entry.1@;
        self.entries.insert(ki, entry);
        proof {
            assert(self.entries@ =~= es0.update(ki as int, self.entries@[ki as int]));
            lemma_entries_update(es0, self.entries@, ki as int, endpoint@);
            assert(list_of(self.entries@, endpoint@) == newlist);
            assert forall|m: int| 0 <= m < l0.len() && m != idx implies newlist[m] == l0[m] by {}
            assert forall|k2: Seq<char>|
                k2 != endpoint@ implies #[trigger] list_of(self.entries@, k2) == list_of(
                es0,
                k2,
            ) by {
                lemma_other_keys(es0, self.entries@, ki as int, endpoint@, k2);
            }
            lemma_total_conns_update(es0, self.entries@, ki as int);
            assert forall|i2: int|
                0 <= i2 < es0.len() implies (#[trigger] self.entries@[i2]).0@ == es0[i2].0@ by {
                if i2 != ki {
                    assert(self.entries@[i2] == es0[i2]);
                }
            }
        }
        Ok(n)
    }

    /// Removes every closed transport from every endpoint's list and
    /// reports how many were removed.
    #[verifier::loop_isolation(false)]
    pub fn cleanup(&mut self) -> (r: usize)
        requires
            old(self).wf(),
            total_conns(old(self).entries()) <= usize::MAX,
        ensures
            final(self).wf(),
            final(self).max_connections() == old(self).max_connections(),
            final(self).entries().len() == old(self).entries().len(),
            forall|i: int|
                0 <= i < old(self).entries().len() ==> (#[trigger] final(self).entries()[i]).0@
                    == old(self).entries()[i].0@ && final(self).entries()[i].1@ == open_only(
                    old(self).entries()[i].1@,
                ),
            r as int == total_conns(old(self).entries()) - total_conns(final(self).entries()),
    {
        let ghost orig = self.entries@;
        let mut rebuilt: Vec<(String, Vec<TCPTransport>)> = Vec::new();
        let mut removed: usize = 0;
        proof {
            assert(orig.skip(0) =~= orig);
            assert(rebuilt@.skip(0) =~= rebuilt@);
            lemma_total_conns_nonneg(orig);
        }
        while self.entries.len() > 0
            invariant
                rebuilt@.len() + self.entries@.len() == orig.len(),
                self.entries@ == orig.skip(rebuilt@.len() as int),
                forall|i: int|
                    0 <= i < rebuilt@.len() ==> (#[trigger] rebuilt@[i]).0@ == orig[i].0@
                        && rebuilt@[i].1@ == open_only(orig[i].1@),
                removed as int == total_conns(orig) - total_conns(
                    orig.skip(rebuilt@.len() as int),
                ) - (total_conns(rebuilt@)),
                total_conns(rebuilt@) >= 0,
                total_conns(orig) <= usize::MAX,
                removed as int >= 0,
                total_conns(orig.skip(rebuilt@.len() as int)) >= 0,
                self.max_connections == old(self).max_connections,
            decreases self.entries@.len(),
        {
            let ghost k = rebuilt@.len() as int;
            proof {
                lemma_total_conns_step(orig, k);
                assert(orig.skip(k)[0] == orig[k]);
                assert(orig.skip(k).drop_first() =~= orig.skip(k + 1));
                lemma_total_conns_nonneg(orig.skip(k + 1));
            }
            let mut entry = self.entries.remove(0);
            proof {
                assert(self.entries@ =~= orig.skip(k + 1));
            }
            let ghost src_list = entry.1@;
            proof {
                assert(src_list == orig[k].1@);
            }
            let n0 = entry.1.len();
            let mut kept: Vec<TCPTransport> = Vec::new();
            let mut dropped_here: usize = 0;
            proof {
                assert(src_list.take(0) =~= Seq::<TCPTransport>::empty());
                assert(open_only(Seq::<TCPTransport>::empty()) =~= Seq::<TCPTransport>::empty());
                assert(src_list.skip(0) =~= src_list);
            }
            while entry.1.len() > 0
                invariant
                    entry.1@.len() <= n0,
                    n0 == src_list.len(),
                    entry.0@ == orig[k].0@,
                    entry.1@ == src_list.skip(n0 - entry.1@.len()),
                    kept@ == open_only(src_list.take(n0 - entry.1@.len())),
                    dropped_here as int == (n0 - entry.1@.len()) - kept@.len(),
                decreases entry.1@.len(),
            {
                let ghost done = n0 - entry.1@.len();
                proof {
                    assert(entry.1@[0] == src_list[done]);
                    assert(entry.1@.drop_first() =~= src_list.skip(done + 1));
                    assert(src_list.take(done + 1) =~= src_list.take(done) + seq![src_list[done]]);
                    lemma_open_only_concat(src_list.take(done), seq![src_list[done]]);
                    assert(seq![src_list[done]].drop_first() =~= Seq::<TCPTransport>::empty());
                    assert(open_only(Seq::<TCPTransport>::empty()) =~= Seq::<
                        TCPTransport,
                    >::empty());
                    lemma_open_only_len(src_list.take(done));
                }
                let t = entry.1.remove(0);
                if t.is_connected() {
                    kept.push(t);
                    proof {
                        assert(kept@ =~= open_only(src_list.take(done + 1)));
                    }
                } else {
                    dropped_here = dropped_here + 1;
                    proof {
                        assert(kept@ =~= open_only(src_list.take(done + 1)));
                    }
                }
            }
            proof {
                assert(src_list.take(n0 as int) =~= src_list);
                lemma_open_only_len(src_list);
            }
            proof {
                lemma_total_conns_nonneg(rebuilt@);
                assert(removed as int + dropped_here as int <= total_conns(orig));
            }
            removed = removed + dropped_here;
            let ghost rb0 = rebuilt@;
            rebuilt.push((entry.0, kept));
            proof {
                assert(rebuilt@.take(rebuilt@.len() - 1) =~= rb0);
                lemma_total_conns_snoc(rebuilt@);
            }
        }
        proof {
            assert(rebuilt@.len() == orig.len());
            assert(orig.skip(orig.len() as int) =~= Seq::<(String, Vec<TCPTransport>)>::empty());
        }
        self.entries = rebuilt;
        proof {
            assert forall|i: int|
                0 <= i < self.entries@.len() implies (#[trigger] self.entries@[i]).1@.len()
                <= self.max_connections as int by {
                lemma_open_only_len(orig[i].1@);
            }
            assert forall|i: int, j: int|
                0 <= i < j < self.entries@.len() implies (#[trigger] self.entries@[i]).0@ != (
            #[trigger] self.entries@[j]).0@ by {
                assert(orig[i].0@ != orig[j].0@);
            }
        }
        removed
    }

    /// The number of endpoint keys and the total pooled transport count.
    #[verifier::loop_isolation(false)]
    pub fn get_stats(&self) -> (r: (usize, usize))
        requires
            self.wf(),
            total_conns(self.entries()) <= usize::MAX,
        ensures
            r.0 == self.entries().len(),
            r.1 as int == total_conns(self.entries()),
    {
        let mut total: usize = 0;
        let mut i: usize = 0;
        proof {
            assert(self.entries@.skip(0) =~= self.entries@);
            lemma_total_conns_nonneg(self.entries@);
        }
        while i < self.entries.len()
            invariant
                i <= self.entries@.len(),
                total_conns(self.entries@) <= usize::MAX,
                total as int == total_conns(self.entries@) - total_conns(
                    self.entries@.skip(i as int),
                ),
                total_conns(self.entries@.skip(i as int)) >= 0,
                total >= 0,
            decreases self.entries@.len() - i,
        {
            proof {
                lemma_total_conns_step(self.entries@, i as int);
                lemma_total_conns_nonneg(self.entries@.skip(i + 1));
            }
            total = total + self.entries[i].1.len();
            i = i + 1;
        }
        proof {
            assert(self.entries@.skip(self.entries@.len() as int) =~= Seq::<
                (String, Vec<TCPTransport>),
            >::empty());
        }
        (self.entries.len(), total)
    }
}

proof fn lemma_total_conns_snoc(es: Seq<(String, Vec<TCPTransport>)>)
    requires
        es.len() > 0,
    ensures
        total_conns(es) == total_conns(es.take(es.len() - 1)) + es[es.len() - 1].1@.len(),
    decreases es.len(),
{
    if es.len() == 1 {
        assert(es.take(0) =~= Seq::<(String, Vec<TCPTransport>)>::empty());
        assert(es.drop_first() =~= Seq::<(String, Vec<TCPTransport>)>::empty());
    } else {
        lemma_total_conns_snoc(es.drop_first());
        assert(es.take(es.len() - 1).drop_first() =~= es.drop_first().take(es.len() - 2));
        assert(es.drop_first()[es.len() - 2] == es[es.len() - 1]);
        assert(es.take(es.len() - 1)[0] == es[0]);
    }
}

} // verus!
