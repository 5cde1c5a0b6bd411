use vstd::prelude::*;

use crate::bits::{
    is_prefix_mask, lemma_mask_and_path, lemma_path_bits_drop_first, lemma_path_bits_eq,
    lemma_path_bits_index, lemma_path_bits_len, lemma_path_bits_take, path_bits, shift1, top_bit,
};

verus! {

/// Picks `a` when it holds a value, otherwise `b`: how a deeper match takes
/// priority over a shallower one during a trie descent.
pub open spec fn opt_or<V>(a: Option<V>, b: Option<V>) -> Option<V> {
    if a is Some {
        a
    } else {
        b
    }
}

/// A binary trie node: one child per next address bit, and an optional stored
/// value for the prefix whose bits lead to this node.
#[derive(Debug)]
pub struct IpTrieNode<V: Copy> {
    l: Option<Box<IpTrieNode<V>>>,
    r: Option<Box<IpTrieNode<V>>>,
    v: Option<V>,
}

impl<V: Copy> IpTrieNode<V> {
    /// The value stored at the node reached by consuming `path` bit by bit
    /// below `self`, or `None` when that node is absent or empty.
    pub closed spec fn value_at(self, path: Seq<bool>) -> Option<V>
        decreases path.len(),
    {
        if path.len() == 0 {
            self.v
        } else {
            match (if path[0] {
                self.r
            } else {
                self.l
            }) {
                Some(c) => c.value_at(path.drop_first()),
                None => None,
            }
        }
    }

    /// The longest-prefix-match result of walking `path` from `self`: the
    /// value of the deepest node along the walk that stores one, where the
    /// walk stops at the first absent child.
    pub closed spec fn spec_lookup(self, path: Seq<bool>) -> Option<V>
        decreases path.len(),
    {
        if path.len() == 0 {
            self.v
        } else {
            match (if path[0] {
                self.r
            } else {
                self.l
            }) {
                Some(c) => opt_or(c.spec_lookup(path.drop_first()), self.v),
                None => self.v,
            }
        }
    }

    /// Create a new empty node.
    pub fn new() -> (n: Self)
        ensures
            forall|p: Seq<bool>| #[trigger] n.value_at(p) is None,
            forall|p: Seq<bool>| #[trigger] n.spec_lookup(p) is None,
    {
        IpTrieNode { l: None, r: None, v: None }
    }

    /// Create a new empty node.
    pub fn empty() -> (n: Self)
        ensures
            forall|p: Seq<bool>| #[trigger] n.value_at(p) is None,
            forall|p: Seq<bool>| #[trigger] n.spec_lookup(p) is None,
    {
        IpTrieNode::new()
    }

    /// Store `value` for the prefix given by the top `len` bits of `ip`,
    /// consumed most significant first; every other registered prefix is left
    /// as it was, and a second insert along the same path overwrites.
    pub fn insert(&mut self, ip: u32, len: u32, value: V)
        requires
            len <= 32,
        ensures
            final(self).value_at(path_bits(ip, len as nat)) == Some(value),
            forall|p: Seq<bool>|
                p != path_bits(ip, len as nat) ==> #[trigger] final(self).value_at(p) == old(
                    self,
                ).value_at(p),
        decreases len,
    {
        if len == 0 {
            self.v = Some(value);
            proof {
                assert forall|p: Seq<bool>| p != path_bits(ip, len as nat) implies #[trigger] self
                    .value_at(p) == old(self).value_at(p) by {
                    if p.len() == 0 {
                        assert(p =~= path_bits(ip, 0));
                        assert(false);
                    }
                }
            }
            return ;
        }
        let ghost path = path_bits(ip, len as nat);
        let ghost rest = path_bits(shift1(ip), (len - 1) as nat);
        proof {
            lemma_path_bits_len(ip, len as nat);
            lemma_path_bits_len(shift1(ip), (len - 1) as nat);
            lemma_path_bits_drop_first(ip, len as nat);
            assert(path[0] == top_bit(ip));
        }
        let go_right: bool = (ip & 0x8000_0000u32) != 0;
        if go_right {
            let mut child: Box<IpTrieNode<V>> = match self.r.take() {
                Some(c) => c,
                None => Box::new(IpTrieNode::new()),
            };
            let ghost pre = *child;
            (&mut *child).insert(ip << 1u32, len - 1, value);
            self.r = Some(child);
            proof {
                assert(self.value_at(path) == Some(value));
                assert forall|p: Seq<bool>| p != path implies #[trigger] self.value_at(p) == old(
                    self,
                ).value_at(p) by {
                    if p.len() == 0 {
                    } else if p[0] {
                        let q = p.drop_first();
                        if q == rest {
                            assert forall|i: int| 0 <= i < p.len() implies p[i] == path[i] by {
                                if i > 0 {
                                    assert(p[i] == q[i - 1]);
                                    assert(path[i] == rest[i - 1]);
                                }
                            }
                            assert(p =~= path);
                            assert(false);
                        }
                        assert(self.value_at(p) == self.r.unwrap().value_at(q));
                        assert(self.r.unwrap().value_at(q) == pre.value_at(q));
                        match old(self).r {
                            Some(c) => {
                                assert(pre == *c);
                                assert(old(self).value_at(p) == c.value_at(q));
                            },
                            None => {
                                assert(pre.value_at(q) is None);
                                assert(old(self).value_at(p) is None);
                            },
                        }
                    } else {
                        assert(self.l == old(self).l);
                    }
                }
            }
        } else {
            let mut child: Box<IpTrieNode<V>> = match self.l.take() {
                Some(c) => c,
                None => Box::new(IpTrieNode::new()),
            };
            let ghost pre = *child;
            (&mut *child).insert(ip << 1u32, len - 1, value);
            self.l = Some(child);
            proof {
                assert(self.value_at(path) == Some(value));
                assert forall|p: Seq<bool>| p != path implies #[trigger] self.value_at(p) == old(
                    self,
                ).value_at(p) by {
                    if p.len() == 0 {
                    } else if !p[0] {
                        let q = p.drop_first();
                        if q == rest {
                            assert forall|i: int| 0 <= i < p.len() implies p[i] == path[i] by {
                                if i > 0 {
                                    assert(p[i] == q[i - 1]);
                                    assert(path[i] == rest[i - 1]);
                                }
                            }
                            assert(p =~= path);
                            assert(false);
                        }
                        assert(self.value_at(p) == self.l.unwrap().value_at(q));
                        assert(self.l.unwrap().value_at(q) == pre.value_at(q));
                        match old(self).l {
                            Some(c) => {
                                assert(pre == *c);
                                assert(old(self).value_at(p) == c.value_at(q));
                            },
                            None => {
                                assert(pre.value_at(q) is None);
                                assert(old(self).value_at(p) is None);
                            },
                        }
                    } else {
                        assert(self.r == old(self).r);
                    }
                }
            }
        }
    }

    proof fn lemma_value_at_step(self, w: Seq<bool>, j: int)
        requires
            1 <= j <= w.len(),
        ensures
            self.value_at(w.take(j)) == (match (if w[0] {
                self.r
            } else {
                self.l
            }) {
                Some(c) => c.value_at(w.drop_first().take(j - 1)),
                None => None::<V>,
            }),
    {
        assert(w.take(j).len() == j);
        assert(w.take(j)[0] == w[0]);
        assert(w.take(j).drop_first() =~= w.drop_first().take(j - 1));
    }

    /// Absence direction of longest-prefix-match: the walk along `w` returns
    /// no value exactly when no prefix of `w` has a value registered.
    pub proof fn lemma_lookup_none(self, w: Seq<bool>)
        ensures
            self.spec_lookup(w) is None <==> (forall|j: int|
                0 <= j <= w.len() ==> #[trigger] self.value_at(w.take(j)) is None),
        decreases w.len(),
    {
        assert(w.take(0) =~= Seq::<bool>::empty());
        assert(self.value_at(w.take(0)) == self.v);
        if w.len() > 0 {
            let w1 = w.drop_first();
            match (if w[0] {
                self.r
            } else {
                self.l
            }) {
                Some(c) => {
                    c.lemma_lookup_none(w1);
                    assert forall|j: int| 1 <= j <= w.len() implies #[trigger] self.value_at(
                        w.take(j),
                    ) == c.value_at(w1.take(j - 1)) by {
                        self.lemma_value_at_step(w, j);
                    }
                    if self.spec_lookup(w) is None {
                        assert forall|j: int| 0 <= j <= w.len() implies #[trigger] self.value_at(
                            w.take(j),
                        ) is None by {
                            if j > 0 {
                                assert(c.value_at(w1.take(j - 1)) is None);
                            }
                        }
                    } else {
                        if self.v is None {
                            assert(c.spec_lookup(w1) is Some);
                            let j1 = choose|j1: int|
                                0 <= j1 <= w1.len() && !(#[trigger] c.value_at(w1.take(j1))
                                    is None);
                            assert(self.value_at(w.take(j1 + 1)) is Some);
                        }
                    }
                },
                None => {
                    assert forall|j: int| 1 <= j <= w.len() implies #[trigger] self.value_at(
                        w.take(j),
                    ) is None by {
                        self.lemma_value_at_step(w, j);
                    }
                },
            }
        }
    }

    /// Presence direction of longest-prefix-match: when the prefix of length
    /// `j` of `w` has value `v` registered and no longer prefix of `w` has
    /// any, the walk along `w` returns `v`.
    pub proof fn lemma_lookup_finds(self, w: Seq<bool>, j: int, v: V)
        requires
            0 <= j <= w.len(),
            self.value_at(w.take(j)) == Some(v),
            forall|k: int| j < k <= w.len() ==> #[trigger] self.value_at(w.take(k)) is None,
        ensures
            self.spec_lookup(w) == Some(v),
        decreases w.len(),
    {
        assert(w.take(0) =~= Seq::<bool>::empty());
        assert(self.value_at(w.take(0)) == self.v);
        if w.len() == 0 {
            assert(j == 0);
        } else {
            let w1 = w.drop_first();
            assert forall|k: int| 1 <= k <= w.len() implies #[trigger] self.value_at(w.take(k))
                == (match (if w[0] {
                self.r
            } else {
                self.l
            }) {
                Some(c) => c.value_at(w1.take(k - 1)),
                None => None::<V>,
            }) by {
                self.lemma_value_at_step(w, k);
            }
            match (if w[0] {
                self.r
            } else {
                self.l
            }) {
                Some(c) => {
                    if j == 0 {
                        assert forall|k1: int| 0 <= k1 <= w1.len() implies #[trigger] c.value_at(
                            w1.take(k1),
                        ) is None by {
                            assert(self.value_at(w.take(k1 + 1)) is None);
                        }
                        c.lemma_lookup_none(w1);
                    } else {
                        assert(c.value_at(w1.take(j - 1)) == Some(v));
                        assert forall|k1: int| j - 1 < k1 <= w1.len() implies #[trigger] c.value_at(
                            w1.take(k1),
                        ) is None by {
                            assert(self.value_at(w.take(k1 + 1)) is None);
                        }
                        c.lemma_lookup_finds(w1, j - 1, v);
                    }
                },
                None => {
                    assert(j == 0);
                },
            }
        }
    }

    /// The walk along `w` returns exactly the value of the longest prefix of
    /// `w` that has one registered.
    pub proof fn lemma_lookup_is_match(self, w: Seq<bool>, v: V)
        requires
            self.spec_lookup(w) == Some(v),
        ensures
            exists|j: int|
                0 <= j <= w.len() && #[trigger] self.value_at(w.take(j)) == Some(v) && (forall|
                    k: int,
                |
                    j < k <= w.len() ==> #[trigger] self.value_at(w.take(k)) is None),
        decreases w.len(),
    {
        assert(w.take(0) =~= Seq::<bool>::empty());
        assert(self.value_at(w.take(0)) == self.v);
        if w.len() == 0 {
            assert(self.value_at(w.take(0)) == Some(v));
        } else {
            let w1 = w.drop_first();
            assert forall|k: int| 1 <= k <= w.len() implies #[trigger] self.value_at(w.take(k))
                == (match (if w[0] {
                self.r
            } else {
                self.l
            }) {
                Some(c) => c.value_at(w1.take(k - 1)),
                None => None::<V>,
            }) by {
                self.lemma_value_at_step(w, k);
            }
            match (if w[0] {
                self.r
            } else {
                self.l
            }) {
                Some(c) => {
                    if c.spec_lookup(w1) is Some {
                        c.lemma_lookup_is_match(w1, v);
                        let j1 = choose|j1: int|
                            0 <= j1 <= w1.len() && #[trigger] c.value_at(w1.take(j1)) == Some(v)
                                && (forall|k1: int|
                                j1 < k1 <= w1.len() ==> #[trigger] c.value_at(w1.take(k1))
                                    is None);
                        assert(self.value_at(w.take(j1 + 1)) == Some(v));
                        assert forall|k: int| j1 + 1 < k <= w.len() implies #[trigger] self
                            .value_at(w.take(k)) is None by {
                            assert(c.value_at(w1.take(k - 1)) is None);
                        }
                    } else {
                        c.lemma_lookup_none(w1);
                        assert(self.value_at(w.take(0)) == Some(v));
                        assert forall|k: int| 0 < k <= w.len() implies #[trigger] self.value_at(
                            w.take(k),
                        ) is None by {
                            assert(c.value_at(w1.take(k - 1)) is None);
                        }
                    }
                },
                None => {
                    assert(self.value_at(w.take(0)) == Some(v));
                },
            }
        }
    }

    /// Longest-prefix-match lookup over the full 32-bit address.
    pub fn get(&self, key: u32) -> (r: Option<V>)
        ensures
            r == self.spec_lookup(path_bits(key, 32)),
    {
        self._get(key, 32, None)
    }

    /// Whether the walk of `address` meets any stored value.
    pub fn contains(&self, address: u32) -> (r: bool)
        ensures
            r == (self.spec_lookup(path_bits(address, 32)) is Some),
    {
        self.get(address).is_some()
    }

    fn _get(&self, ip: u32, len: u32, value: Option<V>) -> (r: Option<V>)
        ensures
            r == opt_or(self.spec_lookup(path_bits(ip, len as nat)), value),
        decreases len,
    {
        if len == 0 {
            return if self.v.is_some() {
                self.v
            } else {
                value
            };
        }
        proof {
            lemma_path_bits_len(ip, len as nat);
            lemma_path_bits_drop_first(ip, len as nat);
        }
        let go_right: bool = (ip & 0x8000_0000u32) != 0;
        let cur: Option<V> = if self.v.is_some() {
            self.v
        } else {
            value
        };
        let next = if go_right {
            &self.r
        } else {
            &self.l
        };
        match next {
            Some(n) => n._get(ip << 1u32, len - 1, cur),
            None => cur,
        }
    }
}

impl<V: Copy> Default for IpTrieNode<V> {
    fn default() -> (n: Self)
        ensures
            forall|p: Seq<bool>| #[trigger] n.value_at(p) is None,
    {
        IpTrieNode::new()
    }
}

/// A generic binary tree node skeleton: two optional exclusively owned
/// children and an optional stored value.
#[allow(dead_code)]
pub struct Node<T> {
    left: Option<Box<Node<T>>>,
    right: Option<Box<Node<T>>>,
    val: Option<T>,
}

/// A generic binary tree skeleton owning its root node.
#[allow(dead_code)]
pub struct Tree<T> {
    root: Node<T>,
}

/// A prefix length was out of range for a 32-bit address.
#[derive(Debug, Clone, Copy, PartialEq, Eq, Structural)]
pub enum RangeError {
    PrefixLenTooLong,
}

/// A CIDR range for IPv4: a base address and a prefix length `mask`
/// (0 to 32), standing for every address that shares the top `mask` bits of
/// `ip`.
#[derive(Debug)]
pub struct Ipv4CidrRange {
    ip: u32,
    mask: u32,
}

impl Ipv4CidrRange {
    /// The range's base address.
    pub closed spec fn spec_ip(self) -> u32 {
        self.ip
    }

    /// The range's prefix length.
    pub closed spec fn spec_mask(self) -> u32 {
        self.mask
    }

    /// Well-formed: the prefix length fits a 32-bit address.
    pub open spec fn wf(self) -> bool {
        self.spec_mask() <= 32
    }

    pub fn new(ip: u32, mask: u32) -> (r: Self)
        requires
            mask <= 32,
        ensures
            r.spec_ip() == ip,
            r.spec_mask() == mask,
            r.wf(),
    {
        Ipv4CidrRange { ip, mask }
    }

    /// Checked constructor for a raw numeric prefix length: rejects one over
    /// 32 instead of trusting the caller.
    pub fn try_new(ip: u32, mask: u32) -> (r: Result<Self, RangeError>)
        ensures
            mask <= 32 ==> (r matches Ok(c) && c.spec_ip() == ip && c.spec_mask() == mask),
            mask > 32 ==> r == Err::<Ipv4CidrRange, RangeError>(RangeError::PrefixLenTooLong),
    {
        if mask <= 32 {
            Ok(Ipv4CidrRange { ip, mask })
        } else {
            Err(RangeError::PrefixLenTooLong)
        }
    }

    /// The range's base address.
    pub fn ip(&self) -> (r: u32)
        ensures
            r == self.spec_ip(),
    {
        self.ip
    }

    /// The range's prefix length.
    pub fn mask(&self) -> (r: u32)
        ensures
            r == self.spec_mask(),
    {
        self.mask
    }

    /// The contiguous bitmask with the top `mask` bits set. The zero-length
    /// prefix is answered explicitly with 0, since deriving it by shifting a
    /// full-width integer by its own width is not defined.
    pub fn to_mask(&self) -> (r: u32)
        requires
            self.wf(),
        ensures
            is_prefix_mask(r, self.spec_mask() as nat),
    {
        if self.mask == 0 {
            proof {
                lemma_path_bits_len(0u32, 32);
                assert forall|j: int| 0 <= j < 32 implies path_bits(0u32, 32)[j] == false by {
                    lemma_path_bits_index(0u32, 32, j);
                    let s = (31 - j) as u32;
                    assert(((0u32 >> s) & 1u32) != 1u32) by (bit_vector);
                }
                assert(path_bits(0u32, 32) =~= Seq::new(32, |i: int| i < 0));
            }
            0
        } else {
            let shift: u32 = 32 - self.mask;
            proof {
                let sh: u32 = shift;
                assert(1u32 << sh >= 1) by (bit_vector)
                    requires
                        sh <= 31u32,
                ;
            }
            let r: u32 = !((1u32 << shift) - 1);
            proof {
                let l32: u32 = self.mask;
                lemma_path_bits_len(r, 32);
                assert forall|j: int| 0 <= j < 32 implies path_bits(r, 32)[j] == (j
                    < l32 as nat) by {
                    lemma_path_bits_index(r, 32, j);
                    let s = (31 - j) as u32;
                    assert((((!((((1u32 << ((32u32 - l32) as u32)) - 1) as u32))) >> s) & 1u32 == 1)
                        == (s >= (32u32 - l32) as u32)) by (bit_vector)
                        requires
                            1u32 <= l32 <= 32u32 && s <= 31u32,
                    ;
                }
                assert(path_bits(r, 32) =~= Seq::new(32, |i: int| i < l32 as nat));
            }
            r
        }
    }
}

/// A prefix trie over 32-bit IPv4 addresses: CIDR ranges go in with a value,
/// and point queries return the value of the most specific registered range
/// covering the address.
#[derive(Debug)]
pub struct IpTrie<V: Copy> {
    root: IpTrieNode<V>,
}

impl<V: Copy> IpTrie<V> {
    /// The value registered for the prefix made of the top `len` bits of `a`,
    /// if any.
    pub closed spec fn prefix_value(self, a: u32, len: nat) -> Option<V> {
        self.root.value_at(path_bits(a, len))
    }

    /// What a lookup of address `a` returns: the value of the longest
    /// registered prefix covering `a`, if any covers it.
    pub closed spec fn lookup_value(self, a: u32) -> Option<V> {
        self.root.spec_lookup(path_bits(a, 32))
    }

    /// Create a new empty trie.
    pub fn new() -> (t: Self)
        ensures
            forall|a: u32, len: nat| #[trigger] t.prefix_value(a, len) is None,
            forall|a: u32| #[trigger] t.lookup_value(a) is None,
    {
        IpTrie { root: IpTrieNode::new() }
    }

    /// Register `value` for the prefix made of the top `prefix_len` bits of
    /// `ip`; every other prefix keeps its value, and re-registering the same
    /// prefix overwrites.
    pub fn add_ip_and_mask(&mut self, ip: u32, prefix_len: u32, value: V)
        requires
            prefix_len <= 32,
        ensures
            final(self).prefix_value(ip, prefix_len as nat) == Some(value),
            forall|b: u32, l: nat|
                path_bits(b, l) != path_bits(ip, prefix_len as nat)
                    ==> #[trigger] final(self).prefix_value(b, l) == old(self).prefix_value(b, l),
    {
        self.root.insert(ip, prefix_len, value);
    }

    /// Register `value` for a CIDR range. Host bits of the base address
    /// beyond the prefix are ignored: they are normalized away with the
    /// range's mask before insertion.
    pub fn add_cidr(&mut self, cidr: Ipv4CidrRange, value: V)
        requires
            cidr.wf(),
        ensures
            final(self).prefix_value(cidr.spec_ip(), cidr.spec_mask() as nat) == Some(value),
            forall|b: u32, l: nat|
                path_bits(b, l) != path_bits(cidr.spec_ip(), cidr.spec_mask() as nat)
                    ==> #[trigger] final(self).prefix_value(b, l) == old(self).prefix_value(b, l),
    {
        let m = cidr.to_mask();
        let masked = cidr.ip & m;
        proof {
            lemma_mask_and_path(cidr.ip, m, cidr.mask as nat, cidr.mask as nat);
        }
        self.root.insert(masked, cidr.mask, value);
    }

    /// Whether some registered range covers `addr`.
    pub fn contains_ip(&self, addr: u32) -> (r: bool)
        ensures
            r == (self.lookup_value(addr) is Some),
    {
        self.root.get(addr).is_some()
    }

    /// Longest-prefix-match lookup: the value of the most specific registered
    /// range covering `addr`, or `None` when none does.
    pub fn get(&self, addr: u32) -> (r: Option<V>)
        ensures
            r == self.lookup_value(addr),
    {
        self.root.get(addr)
    }

    /// Two (address, length) pairs that follow the same bit path name the
    /// same prefix.
    pub proof fn lemma_prefix_value_congruence(self, a: u32, b: u32, alen: nat, blen: nat)
        requires
            path_bits(a, alen) == path_bits(b, blen),
        ensures
            self.prefix_value(a, alen) == self.prefix_value(b, blen),
    {
    }

    /// Law: a registered prefix wins for an address it covers when no longer
    /// registered prefix covers that address — the lookup returns exactly
    /// that prefix's value.
    pub proof fn lemma_covering_prefix_wins(self, a: u32, len: nat, v: V)
        requires
            len <= 32,
            self.prefix_value(a, len) == Some(v),
            forall|l: nat| len < l <= 32 ==> #[trigger] self.prefix_value(a, l) is None,
        ensures
            self.lookup_value(a) == Some(v),
    {
        let w = path_bits(a, 32);
        lemma_path_bits_len(a, 32);
        lemma_path_bits_take(a, 32, len);
        assert(self.root.value_at(w.take(len as int)) == Some(v));
        assert forall|k: int| len < k <= 32 implies self.root.value_at(#[trigger] w.take(k))
            is None by {
            lemma_path_bits_take(a, 32, k as nat);
            assert(self.prefix_value(a, k as nat) is None);
        }
        self.root.lemma_lookup_finds(w, len as int, v);
    }

    /// Law: for a prefix registered with value `v`, every address inside its
    /// range — one agreeing with `ip` on the top `len` bits — that no more
    /// specific registered prefix covers is answered with `v`.
    pub proof fn lemma_range_member_lookup(self, ip: u32, len: nat, v: V, a: u32)
        requires
            len <= 32,
            self.prefix_value(ip, len) == Some(v),
            a >> ((32 - len) as u32) == ip >> ((32 - len) as u32),
            forall|l: nat| len < l <= 32 ==> #[trigger] self.prefix_value(a, l) is None,
        ensures
            self.lookup_value(a) == Some(v),
    {
        lemma_path_bits_eq(a, ip, len);
        self.lemma_prefix_value_congruence(a, ip, len, len);
        self.lemma_covering_prefix_wins(a, len, v);
    }

    /// Law: a lookup returns nothing exactly when no registered prefix
    /// covers the address; in particular a fresh trie answers `None` for
    /// every address.
    pub proof fn lemma_absent(self, a: u32)
        ensures
            (self.lookup_value(a) is None) <==> (forall|l: nat|
                l <= 32 ==> #[trigger] self.prefix_value(a, l) is None),
    {
        let w = path_bits(a, 32);
        lemma_path_bits_len(a, 32);
        self.root.lemma_lookup_none(w);
        if self.lookup_value(a) is None {
            assert forall|l: nat| l <= 32 implies #[trigger] self.prefix_value(a, l) is None by {
                lemma_path_bits_take(a, 32, l);
                assert(self.root.value_at(w.take(l as int)) is None);
            }
        } else {
            let j = choose|j: int|
                0 <= j <= w.len() && !(#[trigger] self.root.value_at(w.take(j)) is None);
            lemma_path_bits_take(a, 32, j as nat);
            assert(self.prefix_value(a, j as nat) is Some);
        }
    }

    /// Law: a registered default route (prefix length 0) covers every
    /// address, so every lookup succeeds; it is the answer exactly for the
    /// addresses that no registered prefix of positive length covers, and is
    /// overridden by any that does (the longest such prefix wins, see
    /// `lemma_covering_prefix_wins`).
    pub proof fn lemma_default_route(self, d: V, a: u32)
        requires
            self.prefix_value(a, 0) == Some(d),
        ensures
            self.lookup_value(a) is Some,
            (forall|l: nat| 0 < l <= 32 ==> #[trigger] self.prefix_value(a, l) is None)
                ==> self.lookup_value(a) == Some(d),
            forall|b: u32| #[trigger] self.prefix_value(b, 0) == Some(d),
    {
        self.lemma_absent(a);
        if forall|l: nat| 0 < l <= 32 ==> #[trigger] self.prefix_value(a, l) is None {
            self.lemma_covering_prefix_wins(a, 0, d);
        }
        assert forall|b: u32| #[trigger] self.prefix_value(b, 0) == Some(d) by {
            assert(path_bits(b, 0) =~= path_bits(a, 0));
        }
    }

    /// Law: what a lookup returns is determined by the registered prefixes
    /// alone — two tries that agree on the value of every prefix of an
    /// address answer that address identically.
    pub proof fn lemma_lookup_from_prefix_values(self, other: IpTrie<V>, a: u32)
        requires
            forall|l: nat|
                l <= 32 ==> #[trigger] self.prefix_value(a, l) == other.prefix_value(a, l),
        ensures
            self.lookup_value(a) == other.lookup_value(a),
    {
        let w = path_bits(a, 32);
        lemma_path_bits_len(a, 32);
        assert forall|j: int| 0 <= j <= 32 implies self.root.value_at(#[trigger] w.take(j))
            == other.root.value_at(w.take(j)) by {
            lemma_path_bits_take(a, 32, j as nat);
            assert(self.prefix_value(a, j as nat) == other.prefix_value(a, j as nat));
        }
        match self.lookup_value(a) {
            Some(v) => {
                self.root.lemma_lookup_is_match(w, v);
                let j = choose|j: int|
                    0 <= j <= w.len() && #[trigger] self.root.value_at(w.take(j)) == Some(v) && (
                    forall|k: int|
                        j < k <= w.len() ==> #[trigger] self.root.value_at(w.take(k)) is None);
                assert forall|k: int| j < k <= w.len() implies other.root.value_at(
                    #[trigger] w.take(k),
                ) is None by {
                    assert(self.root.value_at(w.take(k)) is None);
                }
                other.root.lemma_lookup_finds(w, j, v);
            },
            None => {
                self.root.lemma_lookup_none(w);
                assert forall|j: int| 0 <= j <= w.len() implies other.root.value_at(
                    #[trigger] w.take(j),
                ) is None by {
                    assert(self.root.value_at(w.take(j)) is None);
                }
                other.root.lemma_lookup_none(w);
            },
        }
    }
}

/// `after` is `before` with `value` registered for the prefix made of the
/// top `len` bits of `ip`, and nothing else changed: the relation between
/// old and new trie that `add_ip_and_mask` and `add_cidr` establish.
pub open spec fn inserted<V: Copy>(
    before: IpTrie<V>,
    after: IpTrie<V>,
    ip: u32,
    len: nat,
    value: V,
) -> bool {
    &&& after.prefix_value(ip, len) == Some(value)
    &&& forall|b: u32, l: nat|
        path_bits(b, l) != path_bits(ip, len) ==> #[trigger] after.prefix_value(b, l)
            == before.prefix_value(b, l)
}

/// Law: registering the identical (prefix, value) pair twice yields the same
/// lookup results as registering it once.
pub proof fn lemma_insert_idempotent<V: Copy>(
    t0: IpTrie<V>,
    t1: IpTrie<V>,
    t2: IpTrie<V>,
    ip: u32,
    len: nat,
    v: V,
    a: u32,
)
    requires
        inserted(t0, t1, ip, len, v),
        inserted(t1, t2, ip, len, v),
    ensures
        t2.lookup_value(a) == t1.lookup_value(a),
{
    assert forall|l: nat| l <= 32 implies #[trigger] t2.prefix_value(a, l) == t1.prefix_value(
        a,
        l,
    ) by {
        if path_bits(a, l) == path_bits(ip, len) {
            assert(t1.prefix_value(a, l) == t1.prefix_value(ip, len));
            assert(t2.prefix_value(a, l) == t2.prefix_value(ip, len));
        }
    }
    t2.lemma_lookup_from_prefix_values(t1, a);
}

/// Law: registering the identical prefix twice, first with `v1` and then
/// with `v2`, leaves only `v2` observable — the net effect on the trie's
/// registered prefixes is that of a single insert of `v2`.
pub proof fn lemma_insert_overwrite<V: Copy>(
    t0: IpTrie<V>,
    t1: IpTrie<V>,
    t2: IpTrie<V>,
    ip: u32,
    len: nat,
    v1: V,
    v2: V,
)
    requires
        inserted(t0, t1, ip, len, v1),
        inserted(t1, t2, ip, len, v2),
    ensures
        inserted(t0, t2, ip, len, v2),
{
}

} // verus!
