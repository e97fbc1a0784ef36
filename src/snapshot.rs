//! The scrape plan (which endpoints to contact) and the per-cycle snapshot
//! that maps each scrape identity to its classified samples.
use vstd::prelude::*;
use crate::sample::{sample_views, Category, Kind, NodeExporterValues, SampleView};
use crate::text::str_eq;
use vstd::string::StringExecFns;

verus! {

/// The metrics paths contacted on every host and port.
pub open spec fn endpoint_paths() -> Seq<Seq<char>> {
    seq!["metrics"@, "prometheus-metrics"@]
}

/// The identity of a scrape: `host:port:endpoint`.
pub open spec fn identity_of(host: Seq<char>, port: Seq<char>, endpoint: Seq<char>) -> Seq<char> {
    host + seq![':'] + port + seq![':'] + endpoint
}

/// One endpoint to contact.
#[derive(Debug)]
pub struct ScrapeTarget {
    pub host: String,
    pub port: String,
    pub endpoint: String,
    pub identity: String,
}

/// The targets for a list of hosts and ports, in the order host, port,
/// endpoint (the last varying fastest).
pub open spec fn target_identities(hosts: Seq<Seq<char>>, ports: Seq<Seq<char>>) -> Seq<Seq<char>>
    decreases hosts.len(),
{
    if hosts.len() == 0 {
        Seq::empty()
    } else {
        target_identities(hosts.drop_last(), ports) + host_identities(hosts.last(), ports)
    }
}

/// The targets of one host.
pub open spec fn host_identities(host: Seq<char>, ports: Seq<Seq<char>>) -> Seq<Seq<char>>
    decreases ports.len(),
{
    if ports.len() == 0 {
        Seq::empty()
    } else {
        host_identities(host, ports.drop_last()) + endpoint_paths().map_values(
            |e: Seq<char>| identity_of(host, ports.last(), e),
        )
    }
}

/// The identities of a list of targets.
pub open spec fn identities_of_targets(t: Seq<ScrapeTarget>) -> Seq<Seq<char>> {
    t.map_values(|x: ScrapeTarget| x.identity@)
}

fn make_target(host: &str, port: &str, endpoint: &str) -> (t: ScrapeTarget)
    ensures
        t.host@ == host@,
        t.port@ == port@,
        t.endpoint@ == endpoint@,
        t.identity@ == identity_of(host@, port@, endpoint@),
{
    proof {
        reveal_strlit(":");
    }
    let mut identity = String::new();
    identity.append(host);
    identity.append(":");
    identity.append(port);
    identity.append(":");
    identity.append(endpoint);
    assert(identity@ =~= identity_of(host@, port@, endpoint@));
    ScrapeTarget {
        host: host.to_owned(),
        port: port.to_owned(),
        endpoint: endpoint.to_owned(),
        identity: identity,
    }
}

/// Every host crossed with every port, each with every metrics path.
pub fn scrape_targets(hosts: &Vec<String>, ports: &Vec<String>) -> (r: Vec<ScrapeTarget>)
    ensures
        identities_of_targets(r@) == target_identities(
            hosts@.map_values(|s: String| s@),
            ports@.map_values(|s: String| s@),
        ),
        r@.len() == hosts@.len() * ports@.len() * 2,
        forall|i: int| 0 <= i < r@.len() ==> (#[trigger] r@[i]).identity@ == identity_of(r@[i].host@, r@[i].port@, r@[i].endpoint@),
        forall|i: int|
            0 <= i < r@.len() ==> #[trigger] r@[i].host@ == hosts@[i / (2 * (ports@.len() as int))]@ && r@[i].port@
                == ports@[(i / 2) % (ports@.len() as int)]@ && r@[i].endpoint@ == endpoint_paths()[i % 2],
{
    let ghost hv = hosts@.map_values(|s: String| s@);
    let ghost pv = ports@.map_values(|s: String| s@);
    let endpoints: Vec<&'static str> = vec!["metrics", "prometheus-metrics"];
    let mut r: Vec<ScrapeTarget> = Vec::new();
    let mut h: usize = 0;
    assert(hv.subrange(0, 0) =~= Seq::<Seq<char>>::empty());
    while h < hosts.len()
        invariant
            h <= hosts.len(),
            hv == hosts@.map_values(|s: String| s@),
            pv == ports@.map_values(|s: String| s@),
            endpoints@.map_values(|e: &'static str| e@) == endpoint_paths(),
            identities_of_targets(r@) == target_identities(hv.subrange(0, h as int), pv),
            r@.len() == h * ports@.len() * 2,
            forall|q: int| 0 <= q < r@.len() ==> #[trigger] r@[q].host@ == hv[q / (2 * (pv.len() as int))] && r@[q].port@ == pv[(q / 2) % (pv.len() as int)] && r@[q].endpoint@ == endpoint_paths()[q % 2],
            forall|i: int| 0 <= i < r@.len() ==> (#[trigger] r@[i]).identity@ == identity_of(r@[i].host@, r@[i].port@, r@[i].endpoint@),
        decreases hosts.len() - h,
    {
        let ghost before_host = identities_of_targets(r@);
        let mut p: usize = 0;
        assert(pv.subrange(0, 0) =~= Seq::<Seq<char>>::empty());
        assert(identities_of_targets(r@) =~= before_host + host_identities(hv[h as int], pv.subrange(0, 0)));
        while p < ports.len()
            invariant
                h < hosts.len(),
                p <= ports.len(),
                hv == hosts@.map_values(|s: String| s@),
                pv == ports@.map_values(|s: String| s@),
                endpoints@.map_values(|e: &'static str| e@) == endpoint_paths(),
                identities_of_targets(r@) == before_host + host_identities(hv[h as int], pv.subrange(0, p as int)),
                r@.len() == h * ports@.len() * 2 + p * 2,
                forall|q: int| 0 <= q < r@.len() ==> #[trigger] r@[q].host@ == hv[q / (2 * (pv.len() as int))] && r@[q].port@ == pv[(q / 2) % (pv.len() as int)] && r@[q].endpoint@ == endpoint_paths()[q % 2],
                forall|i: int| 0 <= i < r@.len() ==> (#[trigger] r@[i]).identity@ == identity_of(r@[i].host@, r@[i].port@, r@[i].endpoint@),
            decreases ports.len() - p,
        {
            let ghost before_port = identities_of_targets(r@);
            let mut e: usize = 0;
            while e < endpoints.len()
                invariant
                    h < hosts.len(),
                    p < ports.len(),
                    e <= endpoints.len(),
                    endpoints@.len() == 2,
                    endpoints@.map_values(|e: &'static str| e@) == endpoint_paths(),
                    identities_of_targets(r@) == before_port + endpoint_paths().subrange(0, e as int).map_values(
                        |x: Seq<char>| identity_of(hv[h as int], pv[p as int], x),
                    ),
                    r@.len() == h * ports@.len() * 2 + p * 2 + e,
                    forall|q: int| 0 <= q < r@.len() ==> #[trigger] r@[q].host@ == hv[q / (2 * (pv.len() as int))] && r@[q].port@ == pv[(q / 2) % (pv.len() as int)] && r@[q].endpoint@ == endpoint_paths()[q % 2],
                    forall|i: int| 0 <= i < r@.len() ==> (#[trigger] r@[i]).identity@ == identity_of(r@[i].host@, r@[i].port@, r@[i].endpoint@),
                    hv == hosts@.map_values(|s: String| s@),
                    pv == ports@.map_values(|s: String| s@),
                decreases endpoints.len() - e,
            {
                let t = make_target(hosts[h].as_str(), ports[p].as_str(), endpoints[e]);
                let ghost prev = r@;
                r.push(t);
                assert(endpoint_paths()[e as int] == endpoints@[e as int]@);
                proof {
                    let q = (h * ports@.len() * 2 + p * 2 + e) as int;
                    let pl = pv.len() as int;
                    assert(q / (2 * pl) == h && (q / 2) % pl == p && q % 2 == e) by (nonlinear_arith)
                        requires
                            q == h * pl * 2 + p * 2 + e,
                            0 <= p < pl,
                            0 <= e < 2,
                            h >= 0,
                    ;
                    assert(r@[q].host@ == hv[h as int]);
                }
                assert(identities_of_targets(r@) =~= identities_of_targets(prev).push(t.identity@));
                assert(endpoint_paths().subrange(0, e + 1).map_values(
                    |x: Seq<char>| identity_of(hv[h as int], pv[p as int], x),
                ) =~= endpoint_paths().subrange(0, e as int).map_values(
                    |x: Seq<char>| identity_of(hv[h as int], pv[p as int], x),
                ).push(identity_of(hv[h as int], pv[p as int], endpoint_paths()[e as int])));
                e = e + 1;
            }
            assert(endpoint_paths().subrange(0, 2) =~= endpoint_paths());
            assert(pv.subrange(0, p + 1).drop_last() =~= pv.subrange(0, p as int));
            assert(identities_of_targets(r@) =~= before_host + host_identities(hv[h as int], pv.subrange(0, p + 1)));
            p = p + 1;
        }
        assert(pv.subrange(0, ports.len() as int) =~= pv);
        assert(hv.subrange(0, h + 1).drop_last() =~= hv.subrange(0, h as int));
        assert(identities_of_targets(r@) =~= target_identities(hv.subrange(0, h + 1), pv));
        assert((h + 1) * ports@.len() * 2 == h * ports@.len() * 2 + ports@.len() * 2) by (nonlinear_arith);
        h = h + 1;
    }
    assert(hv.subrange(0, hosts.len() as int) =~= hv);
    assert forall|i: int| 0 <= i < r@.len() implies #[trigger] r@[i].host@ == hosts@[i / (2 * (ports@.len() as int))]@ && r@[i].port@
        == ports@[(i / 2) % (ports@.len() as int)]@ && r@[i].endpoint@ == endpoint_paths()[i % 2] by {
        let pl = ports@.len() as int;
        assert(0 <= i / (2 * pl) < hosts@.len()) by (nonlinear_arith)
            requires
                0 <= i < hosts@.len() * pl * 2,
        ;
        assert(0 <= (i / 2) % pl < pl) by (nonlinear_arith)
            requires
                0 <= i < hosts@.len() * pl * 2,
        ;
        assert(hv[i / (2 * pl)] == hosts@[i / (2 * pl)]@);
        assert(pv[(i / 2) % pl] == ports@[(i / 2) % pl]@);
    }
    r
}

/// The classified samples that one scrape produced.
#[derive(Debug)]
pub struct HostEntry {
    pub identity: String,
    pub samples: Vec<NodeExporterValues>,
}

/// The identities of a sequence of entries, in order.
pub open spec fn entry_ids(e: Seq<HostEntry>) -> Seq<Seq<char>> {
    e.map_values(|x: HostEntry| x.identity@)
}

/// Index of the last entry with the given identity, if any.
pub open spec fn last_index_of(e: Seq<HostEntry>, id: Seq<char>) -> Option<int>
    decreases e.len(),
{
    if e.len() == 0 {
        None
    } else if e.last().identity@ == id {
        Some(e.len() - 1)
    } else {
        last_index_of(e.drop_last(), id)
    }
}

/// The samples reported last under the given identity, if any: a later
/// result overwrites an earlier one.
pub open spec fn last_samples_of(e: Seq<HostEntry>, id: Seq<char>) -> Option<Seq<SampleView>> {
    match last_index_of(e, id) {
        Some(i) => Some(sample_views(e[i].samples@)),
        None => None,
    }
}

/// The samples of one cycle, by scrape identity. Identities are distinct.
#[derive(Debug)]
pub struct HostSnapshot {
    pub entries: Vec<HostEntry>,
}

impl HostSnapshot {
    /// Identities are distinct.
    pub open spec fn wf(&self) -> bool {
        entry_ids(self.entries@).no_duplicates()
    }

    /// The identities of the snapshot.
    pub open spec fn keys(&self) -> Set<Seq<char>> {
        entry_ids(self.entries@).to_set()
    }

    /// The samples held under an identity.
    pub open spec fn samples_of(&self, id: Seq<char>) -> Option<Seq<SampleView>> {
        last_samples_of(self.entries@, id)
    }

    /// An empty snapshot.
    pub fn new() -> (r: HostSnapshot)
        ensures
            r.wf(),
            r.entries@.len() == 0,
    {
        HostSnapshot { entries: Vec::new() }
    }

    /// Number of identities.
    pub fn len(&self) -> (r: usize)
        ensures
            r == self.entries@.len(),
    {
        self.entries.len()
    }

    /// Index of the entry with the given identity.
    pub fn find(&self, id: &str) -> (r: Option<usize>)
        requires
            self.wf(),
        ensures
            match r {
                Some(i) => i < self.entries@.len() && self.entries@[i as int].identity@ == id@
                    && last_index_of(self.entries@, id@) == Some(i as int),
                None => !entry_ids(self.entries@).contains(id@) && last_index_of(self.entries@, id@) is None,
            },
    {
        let ghost ev = self.entries@;
        let mut i: usize = 0;
        while i < self.entries.len()
            invariant
                i <= self.entries@.len(),
                ev == self.entries@,
                entry_ids(ev).no_duplicates(),
                forall|j: int| 0 <= j < i ==> #[trigger] ev[j].identity@ != id@,
            decreases self.entries.len() - i,
        {
            if str_eq(self.entries[i].identity.as_str(), id) {
                proof {
                    lemma_last_index_unique(ev, i as int);
                }
                return Some(i);
            }
            i = i + 1;
        }
        proof {
            lemma_last_index_absent(ev, id@);
        }
        None
    }

    /// Stores the samples of a scrape under its identity, replacing what an
    /// earlier scrape stored under the same identity.
    pub fn insert(&mut self, id: String, samples: Vec<NodeExporterValues>)
        requires
            old(self).wf(),
        ensures
            final(self).wf(),
            final(self).keys() == old(self).keys().insert(id@),
            final(self).samples_of(id@) == Some(sample_views(samples@)),
            forall|k: Seq<char>| k != id@ ==> #[trigger] final(self).samples_of(k) == old(self).samples_of(k),
            final(self).entries@.len() == old(self).entries@.len() + if old(self).keys().contains(id@) {
                0int
            } else {
                1int
            },
    {
        let ghost ev = self.entries@;
        proof {
            lemma_ids_set_contains(ev);
        }
        match self.find(id.as_str()) {
            Some(i) => {
                let ghost sv = sample_views(samples@);
                self.entries.set(i, HostEntry { identity: id, samples: samples });
                proof {
                    let nv = self.entries@;
                    assert(entry_ids(nv) =~= entry_ids(ev));
                    assert(entry_ids(ev)[i as int] == nv[i as int].identity@);
                    lemma_ids_set_contains(nv);
                    assert(self.keys() =~= old(self).keys().insert(nv[i as int].identity@));
                    lemma_last_index_unique(nv, i as int);
                    assert forall|k: Seq<char>| k != nv[i as int].identity@ implies #[trigger] last_samples_of(nv, k)
                        == last_samples_of(ev, k) by {
                        lemma_last_index_update(ev, i as int, nv[i as int], k);
                    }
                }
            },
            None => {
                self.entries.push(HostEntry { identity: id, samples: samples });
                proof {
                    let nv = self.entries@;
                    assert(entry_ids(nv) =~= entry_ids(ev).push(nv.last().identity@));
                    lemma_push_contains(entry_ids(ev), nv.last().identity@);
                    lemma_ids_set_contains(nv);
                    assert(self.keys() =~= old(self).keys().insert(nv.last().identity@));
                    assert(nv.drop_last() =~= ev);
                    assert forall|k: Seq<char>| k != nv.last().identity@ implies #[trigger] last_samples_of(nv, k)
                        == last_samples_of(ev, k) by {
                        lemma_last_index_bounds(ev, k);
                        match last_index_of(ev, k) {
                            Some(j) => {
                                assert(nv[j] == ev[j]);
                            },
                            None => {},
                        }
                    }
                    assert(entry_ids(nv).no_duplicates()) by {
                        assert forall|a: int, b: int| 0 <= a < b < entry_ids(nv).len() implies entry_ids(nv)[a]
                            != entry_ids(nv)[b] by {
                            if b == nv.len() - 1 {
                                assert(entry_ids(ev)[a] == entry_ids(nv)[a]);
                            } else {
                                assert(entry_ids(ev)[a] == entry_ids(nv)[a]);
                                assert(entry_ids(ev)[b] == entry_ids(nv)[b]);
                            }
                        }
                    }
                }
            },
        }
    }
}

proof fn lemma_last_index_bounds(e: Seq<HostEntry>, id: Seq<char>)
    ensures
        match last_index_of(e, id) {
            Some(j) => 0 <= j < e.len() && e[j].identity@ == id,
            None => true,
        },
    decreases e.len(),
{
    if e.len() > 0 && e.last().identity@ != id {
        lemma_last_index_bounds(e.drop_last(), id);
        match last_index_of(e.drop_last(), id) {
            Some(j) => {
                assert(e.drop_last()[j] == e[j]);
            },
            None => {},
        }
    }
}

proof fn lemma_push_contains(s: Seq<Seq<char>>, a: Seq<char>)
    ensures
        forall|b: Seq<char>| #[trigger] s.push(a).contains(b) <==> s.contains(b) || b == a,
{
    assert forall|b: Seq<char>| #[trigger] s.push(a).contains(b) implies s.contains(b) || b == a by {
        let j = choose|j: int| 0 <= j < s.push(a).len() && s.push(a)[j] == b;
        if j < s.len() {
            assert(s[j] == b);
        }
    }
    assert forall|b: Seq<char>| s.contains(b) || b == a implies #[trigger] s.push(a).contains(b) by {
        if b == a {
            assert(s.push(a)[s.len() as int] == b);
        } else {
            let j = choose|j: int| 0 <= j < s.len() && s[j] == b;
            assert(s.push(a)[j] == b);
        }
    }
}

proof fn lemma_ids_set_contains(e: Seq<HostEntry>)
    ensures
        forall|k: Seq<char>| #[trigger] entry_ids(e).to_set().contains(k) <==> entry_ids(e).contains(k),
{
}

proof fn lemma_last_index_unique(e: Seq<HostEntry>, i: int)
    requires
        entry_ids(e).no_duplicates(),
        0 <= i < e.len(),
    ensures
        last_index_of(e, e[i].identity@) == Some(i),
    decreases e.len(),
{
    if i < e.len() - 1 {
        assert(entry_ids(e)[i] != entry_ids(e)[e.len() - 1]);
        assert(entry_ids(e.drop_last()) =~= entry_ids(e).drop_last());
        assert(e.drop_last()[i] == e[i]);
        lemma_last_index_unique(e.drop_last(), i);
    }
}

proof fn lemma_last_index_absent(e: Seq<HostEntry>, id: Seq<char>)
    requires
        forall|j: int| 0 <= j < e.len() ==> #[trigger] e[j].identity@ != id,
    ensures
        last_index_of(e, id) is None,
        !entry_ids(e).contains(id),
    decreases e.len(),
{
    if e.len() > 0 {
        assert forall|j: int| 0 <= j < e.drop_last().len() implies #[trigger] e.drop_last()[j].identity@ != id by {
            assert(e.drop_last()[j] == e[j]);
        }
        lemma_last_index_absent(e.drop_last(), id);
    }
    if entry_ids(e).contains(id) {
        let j = choose|j: int| 0 <= j < entry_ids(e).len() && entry_ids(e)[j] == id;
        assert(e[j].identity@ == id);
    }
}

proof fn lemma_last_index_update(e: Seq<HostEntry>, i: int, x: HostEntry, k: Seq<char>)
    requires
        0 <= i < e.len(),
        x.identity@ == e[i].identity@,
        k != x.identity@,
    ensures
        last_samples_of(e.update(i, x), k) == last_samples_of(e, k),
        last_index_of(e.update(i, x), k) == last_index_of(e, k),
    decreases e.len(),
{
    let u = e.update(i, x);
    lemma_last_index_bounds(e.drop_last(), k);
    if i < e.len() - 1 {
        assert(u.drop_last() =~= e.drop_last().update(i, x));
        lemma_last_index_update(e.drop_last(), i, x, k);
        match last_index_of(e.drop_last(), k) {
            Some(j) => {
                assert(u.drop_last()[j] == u[j]);
                assert(e.drop_last()[j] == e[j]);
            },
            None => {},
        }
    } else {
        assert(u.drop_last() =~= e.drop_last());
        match last_index_of(e.drop_last(), k) {
            Some(j) => {
                assert(u.drop_last()[j] == u[j]);
                assert(e.drop_last()[j] == e[j]);
            },
            None => {},
        }
    }
}

/// Builds the snapshot of a cycle from the scrape results in the order in
/// which they arrived: every identity that arrived is a key, and where two
/// results share an identity the later one wins.
pub fn assemble_snapshot(results: Vec<HostEntry>) -> (r: HostSnapshot)
    ensures
        r.wf(),
        r.keys() == entry_ids(results@).to_set(),
        forall|k: Seq<char>| #[trigger] r.samples_of(k) == last_samples_of(results@, k),
{
    let ghost rv = results@;
    let mut snap = HostSnapshot::new();
    let mut rest = results;
    let mut pending: Vec<HostEntry> = Vec::new();
    // reversed, so that `pop` hands the results out in arrival order
    while rest.len() > 0
        invariant
            pending@ + rest@.reverse() == rv.reverse(),
        decreases rest.len(),
    {
        let ghost before = rest@;
        let x = rest.pop().unwrap();
        proof {
            assert(before =~= rest@.push(x));
            assert(before.reverse() =~= seq![x] + rest@.reverse());
        }
        pending.push(x);
        assert(pending@ + rest@.reverse() =~= rv.reverse());
    }
    assert(pending@ =~= rv.reverse());
    let n = pending.len();
    let mut i: usize = 0;
    assert(entry_ids(rv.subrange(0, 0)).to_set() =~= Set::<Seq<char>>::empty());
    assert(snap.keys() =~= Set::<Seq<char>>::empty());
    while pending.len() > 0
        invariant
            i <= n,
            n == rv.len(),
            pending@.len() == n - i,
            pending@ == rv.subrange(i as int, n as int).reverse(),
            snap.wf(),
            snap.keys() == entry_ids(rv.subrange(0, i as int)).to_set(),
            forall|k: Seq<char>| #[trigger] snap.samples_of(k) == last_samples_of(rv.subrange(0, i as int), k),
        decreases pending.len(),
    {
        let ghost before = pending@;
        let x = pending.pop().unwrap();
        let ghost prefix = rv.subrange(0, i as int);
        let ghost next = rv.subrange(0, i + 1);
        proof {
            assert(x == rv[i as int]) by {
                assert(before.last() == rv.subrange(i as int, n as int).reverse().last());
            }
            assert(pending@ =~= rv.subrange(i + 1, n as int).reverse());
            assert(next.drop_last() =~= prefix);
            assert(next.last() == x);
            assert(entry_ids(next) =~= entry_ids(prefix).push(x.identity@));
            lemma_push_contains(entry_ids(prefix), x.identity@);
            lemma_last_index_bounds(prefix, x.identity@);
            lemma_ids_set_contains(next);
            lemma_ids_set_contains(prefix);
            assert(entry_ids(next).to_set() =~= entry_ids(prefix).to_set().insert(x.identity@));
            assert(last_samples_of(next, x.identity@) == Some(sample_views(x.samples@)));
            assert forall|k: Seq<char>| k != x.identity@ implies #[trigger] last_samples_of(next, k)
                == last_samples_of(prefix, k) by {
                lemma_last_index_bounds(prefix, k);
                match last_index_of(prefix, k) {
                    Some(j) => {
                        assert(next[j] == prefix[j]);
                    },
                    None => {},
                }
            }
        }
        let HostEntry { identity, samples } = x;
        snap.insert(identity, samples);
        i = i + 1;
    }
    assert(rv.subrange(0, n as int) =~= rv);
    snap
}

/// A raw sample kept with the identity of the scrape it came from.
#[derive(Debug)]
pub struct StoredNodeExporterValues {
    pub hostname_port: String,
    pub timestamp: i64,
    pub node_exporter_name: String,
    pub node_exporter_type: Kind,
    pub node_exporter_labels: String,
    pub node_exporter_category: Category,
    pub node_exporter_value: i128,
}

/// The stored form of a raw sample.
pub open spec fn stored_matches(st: StoredNodeExporterValues, host: Seq<char>, r: SampleView) -> bool {
    &&& st.hostname_port@ == host
    &&& st.timestamp as int == r.timestamp
    &&& st.node_exporter_name@ == r.name
    &&& st.node_exporter_type == r.kind
    &&& st.node_exporter_labels@ == r.labels
    &&& st.node_exporter_category == r.category
    &&& st.node_exporter_value as int == r.value
}

/// Appends the samples of one scrape, tagged with its identity, to a store.
pub fn add_to_node_exporter_vectors(
    node_exporter_values: Vec<NodeExporterValues>,
    hostname: &str,
    stored_node_exporter_values: &mut Vec<StoredNodeExporterValues>,
)
    ensures
        final(stored_node_exporter_values)@.len() == old(stored_node_exporter_values)@.len()
            + node_exporter_values@.len(),
        forall|i: int|
            0 <= i < old(stored_node_exporter_values)@.len() ==> #[trigger] final(stored_node_exporter_values)@[i]
                == old(stored_node_exporter_values)@[i],
        forall|i: int|
            0 <= i < node_exporter_values@.len() ==> stored_matches(
                #[trigger] final(stored_node_exporter_values)@[old(stored_node_exporter_values)@.len() + i],
                hostname@,
                node_exporter_values@[i]@,
            ),
{
    let ghost start = stored_node_exporter_values@;
    let mut i: usize = 0;
    while i < node_exporter_values.len()
        invariant
            i <= node_exporter_values@.len(),
            stored_node_exporter_values@.len() == start.len() + i,
            forall|j: int| 0 <= j < start.len() ==> #[trigger] stored_node_exporter_values@[j] == start[j],
            forall|j: int|
                0 <= j < i ==> stored_matches(
                    #[trigger] stored_node_exporter_values@[start.len() + j],
                    hostname@,
                    node_exporter_values@[j]@,
                ),
        decreases node_exporter_values.len() - i,
    {
        let row = &node_exporter_values[i];
        stored_node_exporter_values.push(
            StoredNodeExporterValues {
                hostname_port: hostname.to_owned(),
                timestamp: row.node_exporter_timestamp,
                node_exporter_name: row.node_exporter_name.clone(),
                node_exporter_type: row.node_exporter_type,
                node_exporter_labels: row.node_exporter_labels.clone(),
                node_exporter_category: row.node_exporter_category,
                node_exporter_value: row.node_exporter_value,
            },
        );
        assert forall|j: int| 0 <= j < i + 1 implies stored_matches(
            #[trigger] stored_node_exporter_values@[start.len() + j],
            hostname@,
            node_exporter_values@[j]@,
        ) by {
            if j < i {
            }
        }
        i = i + 1;
    }
}

/// Completeness of a snapshot: whatever order the results of a cycle arrive
/// in (however many workers produced them), the snapshot holds the same
/// keys, and with one result per distinct identity (unreachable endpoints
/// included, whose results hold no samples) it holds exactly one key per
/// result.
pub proof fn lemma_snapshot_complete(a: Seq<HostEntry>, b: Seq<HostEntry>)
    requires
        entry_ids(a).no_duplicates(),
        entry_ids(a).to_multiset() == entry_ids(b).to_multiset(),
    ensures
        entry_ids(b).to_set() == entry_ids(a).to_set(),
        entry_ids(a).to_set().len() == a.len(),
        entry_ids(b).to_set().len() == b.len(),
{
    broadcast use vstd::seq_lib::group_to_multiset_ensures;

    assert(entry_ids(b).to_set() =~= entry_ids(a).to_set()) by {
        assert forall|k: Seq<char>| entry_ids(b).to_set().contains(k) <==> entry_ids(a).to_set().contains(k) by {
            assert(entry_ids(b).contains(k) <==> entry_ids(b).to_multiset().count(k) > 0);
            assert(entry_ids(a).contains(k) <==> entry_ids(a).to_multiset().count(k) > 0);
        }
    }
    entry_ids(a).unique_seq_to_set();
    assert(entry_ids(a).to_multiset().len() == entry_ids(a).len());
    assert(entry_ids(b).to_multiset().len() == entry_ids(b).len());
}

/// Independence from the arrival order: when the results of a cycle arrive
/// in another order (as a different number of workers may deliver them),
/// and identities are distinct, every identity maps to the same samples.
pub proof fn lemma_snapshot_order_free(a: Seq<HostEntry>, b: Seq<HostEntry>)
    requires
        entry_ids(a).no_duplicates(),
        entry_ids(a).to_multiset() == entry_ids(b).to_multiset(),
        forall|j: int| 0 <= j < b.len() ==> a.contains(#[trigger] b[j]),
    ensures
        forall|k: Seq<char>| #[trigger] last_samples_of(a, k) == last_samples_of(b, k),
{
    broadcast use vstd::seq_lib::group_to_multiset_ensures;

    entry_ids(a).lemma_multiset_has_no_duplicates();
    entry_ids(b).lemma_multiset_has_no_duplicates_conv();
    assert forall|k: Seq<char>| #[trigger] last_samples_of(a, k) == last_samples_of(b, k) by {
        lemma_last_index_bounds(a, k);
        lemma_last_index_bounds(b, k);
        match last_index_of(b, k) {
            Some(j) => {
                let i = choose|i: int| 0 <= i < a.len() && a[i] == b[j];
                assert(entry_ids(a)[i] == k);
                lemma_last_index_unique(a, i);
            },
            None => {
                match last_index_of(a, k) {
                    Some(i) => {
                        assert(entry_ids(a)[i] == k);
                        assert(entry_ids(a).contains(k));
                        assert(entry_ids(b).to_multiset().count(k) > 0);
                        let j = choose|j: int| 0 <= j < entry_ids(b).len() && entry_ids(b)[j] == k;
                        lemma_last_index_unique(b, j);
                    },
                    None => {},
                }
            },
        }
    }
}

/// No `:` in the sequence.
pub open spec fn colon_free(s: Seq<char>) -> bool {
    forall|i: int| 0 <= i < s.len() ==> s[i] != ':'
}

proof fn lemma_colon_split(a: Seq<char>, x: Seq<char>, b: Seq<char>, y: Seq<char>)
    requires
        colon_free(a),
        colon_free(b),
        a + seq![':'] + x == b + seq![':'] + y,
    ensures
        a == b,
        x == y,
{
    let s = a + seq![':'] + x;
    let t = b + seq![':'] + y;
    if a.len() < b.len() {
        assert(s[a.len() as int] == ':');
        assert(t[a.len() as int] == b[a.len() as int]);
    } else if b.len() < a.len() {
        assert(t[b.len() as int] == ':');
        assert(s[b.len() as int] == a[b.len() as int]);
    }
    assert(a =~= s.subrange(0, a.len() as int));
    assert(b =~= t.subrange(0, b.len() as int));
    assert(x =~= s.subrange(a.len() as int + 1, s.len() as int));
    assert(y =~= t.subrange(b.len() as int + 1, t.len() as int));
}

proof fn lemma_identity_injective(host_a: Seq<char>, port_a: Seq<char>, path_a: Seq<char>, host_b: Seq<char>, port_b: Seq<char>, path_b: Seq<char>)
    requires
        colon_free(host_a),
        colon_free(host_b),
        colon_free(port_a),
        colon_free(port_b),
        identity_of(host_a, port_a, path_a) == identity_of(host_b, port_b, path_b),
    ensures
        host_a == host_b,
        port_a == port_b,
        path_a == path_b,
{
    assert(identity_of(host_a, port_a, path_a) =~= host_a + seq![':'] + (port_a + seq![':'] + path_a));
    assert(identity_of(host_b, port_b, path_b) =~= host_b + seq![':'] + (port_b + seq![':'] + path_b));
    lemma_colon_split(host_a, port_a + seq![':'] + path_a, host_b, port_b + seq![':'] + path_b);
    lemma_colon_split(port_a, path_a, port_b, path_b);
}

proof fn lemma_paths_distinct()
    ensures
        endpoint_paths().len() == 2,
        endpoint_paths()[0] != endpoint_paths()[1],
{
    reveal_strlit("metrics");
    reveal_strlit("prometheus-metrics");
    assert(endpoint_paths()[0].len() != endpoint_paths()[1].len());
}

proof fn lemma_host_identities_shape(h: Seq<char>, ps: Seq<Seq<char>>)
    ensures
        host_identities(h, ps).len() == ps.len() * 2,
        forall|i: int| 0 <= i < host_identities(h, ps).len() ==> #[trigger] host_identities(h, ps)[i]
            == identity_of(h, ps[i / 2], endpoint_paths()[i % 2]),
    decreases ps.len(),
{
    lemma_paths_distinct();
    if ps.len() > 0 {
        let prev = host_identities(h, ps.drop_last());
        lemma_host_identities_shape(h, ps.drop_last());
        let tail = endpoint_paths().map_values(|e: Seq<char>| identity_of(h, ps.last(), e));
        assert forall|i: int| 0 <= i < host_identities(h, ps).len() implies #[trigger] host_identities(h, ps)[i]
            == identity_of(h, ps[i / 2], endpoint_paths()[i % 2]) by {
            if i < prev.len() {
                assert(ps.drop_last()[i / 2] == ps[i / 2]);
            } else {
                let k = i - prev.len();
                assert(host_identities(h, ps)[i] == tail[k]);
                assert(i / 2 == ps.len() - 1);
                assert(i % 2 == k);
            }
        }
    }
}

proof fn lemma_host_identities_distinct(h: Seq<char>, ps: Seq<Seq<char>>)
    requires
        colon_free(h),
        ps.no_duplicates(),
        forall|j: int| 0 <= j < ps.len() ==> colon_free(#[trigger] ps[j]),
    ensures
        host_identities(h, ps).no_duplicates(),
{
    lemma_paths_distinct();
    lemma_host_identities_shape(h, ps);
    let all = host_identities(h, ps);
    assert forall|a: int, b: int| 0 <= a < b < all.len() implies all[a] != all[b] by {
        if all[a] == all[b] {
            assert(colon_free(ps[a / 2]));
            assert(colon_free(ps[b / 2]));
            lemma_identity_injective(h, ps[a / 2], endpoint_paths()[a % 2], h, ps[b / 2], endpoint_paths()[b % 2]);
            assert(a / 2 == b / 2);
            assert(a % 2 == b % 2);
        }
    }
}

proof fn lemma_target_identity_at(hs: Seq<Seq<char>>, ps: Seq<Seq<char>>, i: int) -> (w: (int, int))
    requires
        0 <= i < target_identities(hs, ps).len(),
    ensures
        0 <= w.0 < hs.len(),
        0 <= w.1 < ps.len() * 2,
        target_identities(hs, ps)[i] == host_identities(hs[w.0], ps)[w.1],
    decreases hs.len(),
{
    let prev = target_identities(hs.drop_last(), ps);
    lemma_host_identities_shape(hs.last(), ps);
    assert(target_identities(hs, ps) == prev + host_identities(hs.last(), ps));
    if i < prev.len() {
        let (g, m) = lemma_target_identity_at(hs.drop_last(), ps, i);
        assert(hs.drop_last()[g] == hs[g]);
        (g, m)
    } else {
        let m = i - prev.len();
        assert(hs[hs.len() - 1] == hs.last());
        (hs.len() - 1, m)
    }
}

/// Distinct scrape identities: with distinct hosts and distinct ports, none
/// of them holding `:`, every (host, port, path) target has an identity of
/// its own. With `lemma_snapshot_complete`, a cycle's snapshot then holds
/// exactly one key per target.
pub proof fn lemma_target_identities_distinct(hosts: Seq<Seq<char>>, ports: Seq<Seq<char>>)
    requires
        hosts.no_duplicates(),
        ports.no_duplicates(),
        forall|g: int| 0 <= g < hosts.len() ==> colon_free(#[trigger] hosts[g]),
        forall|j: int| 0 <= j < ports.len() ==> colon_free(#[trigger] ports[j]),
    ensures
        target_identities(hosts, ports).no_duplicates(),
    decreases hosts.len(),
{
    if hosts.len() > 0 {
        let prev = target_identities(hosts.drop_last(), ports);
        let last = hosts.last();
        assert forall|g: int| 0 <= g < hosts.drop_last().len() implies colon_free(#[trigger] hosts.drop_last()[g]) by {
            assert(hosts.drop_last()[g] == hosts[g]);
        }
        assert(hosts.drop_last().no_duplicates()) by {
            assert forall|a: int, b: int| 0 <= a < b < hosts.drop_last().len() implies hosts.drop_last()[a] != hosts.drop_last()[b] by {
                assert(hosts.drop_last()[a] == hosts[a]);
                assert(hosts.drop_last()[b] == hosts[b]);
            }
        }
        lemma_target_identities_distinct(hosts.drop_last(), ports);
        lemma_host_identities_distinct(last, ports);
        lemma_host_identities_shape(last, ports);
        let tail = host_identities(last, ports);
        let all = target_identities(hosts, ports);
        assert(all == prev + tail);
        assert forall|a: int, b: int| 0 <= a < b < all.len() implies all[a] != all[b] by {
            if b < prev.len() {
                assert(all[a] == prev[a] && all[b] == prev[b]);
            } else if a >= prev.len() {
                assert(all[a] == tail[a - prev.len()] && all[b] == tail[b - prev.len()]);
            } else {
                let (g, m) = lemma_target_identity_at(hosts.drop_last(), ports, a);
                let hg = hosts.drop_last()[g];
                let n = b - prev.len();
                if all[a] == all[b] {
                    assert(hg == hosts[g]);
                    assert(colon_free(hosts[g]));
                    lemma_host_identities_shape(hg, ports);
                    assert(prev[a] == identity_of(hg, ports[m / 2], endpoint_paths()[m % 2]));
                    assert(all[b] == identity_of(last, ports[n / 2], endpoint_paths()[n % 2]));
                    assert(colon_free(ports[m / 2]));
                    assert(colon_free(ports[n / 2]));
                    assert(colon_free(last));
                    lemma_identity_injective(hg, ports[m / 2], endpoint_paths()[m % 2], last, ports[n / 2], endpoint_paths()[n % 2]);
                    assert(hosts[g] == hosts[hosts.len() - 1]);
                }
            }
        }
    }
}

} // verus!
