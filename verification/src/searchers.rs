use vstd::prelude::*;

use std::collections::BTreeMap;
use std::collections::HashMap;

verus! {

broadcast use
    vstd::std_specs::hash::group_hash_axioms,
    vstd::std_specs::btree::group_btree_axioms,
    vstd::laws_cmp::group_laws_cmp,
;

/// One observation filed under an address: where it was seen, when, and
/// whether it is the latest one.
#[derive(Debug)]
pub struct NodeRecord {
    pub geo_location: String,
    pub utc: String,
    pub is_latest: bool,
}

/// Files records under 32-bit addresses in a hash map; each address keeps
/// every record ever inserted for it, in insertion order.
#[derive(Debug)]
pub struct HashMapIpSearcher {
    pub inner: HashMap<u32, Vec<NodeRecord>>,
}

impl HashMapIpSearcher {
    /// The records filed under `ip`, oldest first, or `None` when the
    /// address was never inserted.
    pub open spec fn records_of(self, ip: u32) -> Option<Seq<NodeRecord>> {
        if self.inner@.contains_key(ip) {
            Some(self.inner@[ip]@)
        } else {
            None
        }
    }

    pub fn new() -> (r: Self)
        ensures
            forall|ip: u32| #[trigger] r.records_of(ip) is None,
    {
        HashMapIpSearcher { inner: HashMap::new() }
    }

    pub fn from_hashmap(hm: HashMap<u32, Vec<NodeRecord>>) -> (r: Self)
        ensures
            r.inner@ == hm@,
    {
        HashMapIpSearcher { inner: hm }
    }

    /// File one more record under `ip`, after all earlier ones; other
    /// addresses are untouched.
    pub fn insert(&mut self, ip: u32, n: NodeRecord)
        ensures
            final(self).records_of(ip) == Some(
                (match old(self).records_of(ip) {
                    Some(s) => s.push(n),
                    None => seq![n],
                }),
            ),
            forall|k: u32|
                k != ip ==> #[trigger] final(self).records_of(k) == old(self).records_of(k),
    {
        match self.inner.remove(&ip) {
            Some(mut a) => {
                a.push(n);
                self.inner.insert(ip, a);
            },
            None => {
                let mut a: Vec<NodeRecord> = Vec::new();
                a.push(n);
                proof {
                    assert(a@ =~= seq![n]);
                }
                self.inner.insert(ip, a);
            },
        }
    }

    /// The records filed under `q`, or `None` when there are none.
    pub fn query(&self, q: u32) -> (r: Option<&Vec<NodeRecord>>)
        ensures
            (match r {
                Some(v) => self.records_of(q) == Some(v@),
                None => self.records_of(q) is None,
            }),
    {
        self.inner.get(&q)
    }

    /// Answer each query in order.
    pub fn queries(&self, qs: &Vec<u32>) -> (r: Vec<Option<&Vec<NodeRecord>>>)
        ensures
            r.len() == qs.len(),
            forall|i: int|
                0 <= i < qs.len() ==> (match #[trigger] r[i] {
                    Some(v) => self.records_of(qs[i]) == Some(v@),
                    None => self.records_of(qs[i]) is None,
                }),
    {
        let mut out: Vec<Option<&Vec<NodeRecord>>> = Vec::new();
        let mut i: usize = 0;
        while i < qs.len()
            invariant
                i <= qs.len(),
                out.len() == i,
                forall|j: int|
                    0 <= j < i ==> (match #[trigger] out[j] {
                        Some(v) => self.records_of(qs[j]) == Some(v@),
                        None => self.records_of(qs[j]) is None,
                    }),
            decreases qs.len() - i,
        {
            out.push(self.query(qs[i]));
            i = i + 1;
        }
        out
    }
}

/// Files records under 32-bit addresses in an ordered map; each address
/// keeps every record ever inserted for it, in insertion order.
#[derive(Debug)]
pub struct BTreeMapIpSearcher {
    inner: BTreeMap<u32, Vec<NodeRecord>>,
}

impl BTreeMapIpSearcher {
    /// The records filed under `ip`, oldest first, or `None` when the
    /// address was never inserted.
    pub closed spec fn records_of(self, ip: u32) -> Option<Seq<NodeRecord>> {
        if self.inner@.contains_key(ip) {
            Some(self.inner@[ip]@)
        } else {
            None
        }
    }

    pub fn new() -> (r: Self)
        ensures
            forall|ip: u32| #[trigger] r.records_of(ip) is None,
    {
        BTreeMapIpSearcher { inner: BTreeMap::new() }
    }

    pub fn from_btreemap(btmap: BTreeMap<u32, Vec<NodeRecord>>) -> (r: Self)
        ensures
            forall|ip: u32|
                #[trigger] r.records_of(ip) == (if btmap@.contains_key(ip) {
                    Some(btmap@[ip]@)
                } else {
                    None::<Seq<NodeRecord>>
                }),
    {
        BTreeMapIpSearcher { inner: btmap }
    }

    /// File one more record under `ip`, after all earlier ones; other
    /// addresses are untouched.
    pub fn insert(&mut self, ip: u32, n: NodeRecord)
        ensures
            final(self).records_of(ip) == Some(
                (match old(self).records_of(ip) {
                    Some(s) => s.push(n),
                    None => seq![n],
                }),
            ),
            forall|k: u32|
                k != ip ==> #[trigger] final(self).records_of(k) == old(self).records_of(k),
    {
        match self.inner.remove(&ip) {
            Some(mut a) => {
                a.push(n);
                self.inner.insert(ip, a);
            },
            None => {
                let mut a: Vec<NodeRecord> = Vec::new();
                a.push(n);
                proof {
                    assert(a@ =~= seq![n]);
                }
                self.inner.insert(ip, a);
            },
        }
    }

    /// The records filed under `q`, or `None` when there are none.
    pub fn query(&self, q: u32) -> (r: Option<&Vec<NodeRecord>>)
        ensures
            (match r {
                Some(v) => self.records_of(q) == Some(v@),
                None => self.records_of(q) is None,
            }),
    {
        self.inner.get(&q)
    }

    /// Answer each query in order.
    pub fn queries(&self, qs: &Vec<u32>) -> (r: Vec<Option<&Vec<NodeRecord>>>)
        ensures
            r.len() == qs.len(),
            forall|i: int|
                0 <= i < qs.len() ==> (match #[trigger] r[i] {
                    Some(v) => self.records_of(qs[i]) == Some(v@),
                    None => self.records_of(qs[i]) is None,
                }),
    {
        let mut out: Vec<Option<&Vec<NodeRecord>>> = Vec::new();
        let mut i: usize = 0;
        while i < qs.len()
            invariant
                i <= qs.len(),
                out.len() == i,
                forall|j: int|
                    0 <= j < i ==> (match #[trigger] out[j] {
                        Some(v) => self.records_of(qs[j]) == Some(v@),
                        None => self.records_of(qs[j]) is None,
                    }),
            decreases qs.len() - i,
        {
            out.push(self.query(qs[i]));
            i = i + 1;
        }
        out
    }
}

} // verus!
