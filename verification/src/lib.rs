//! Longest-prefix-match routing over 32-bit IPv4 addresses.
//!
//! The core is a binary trie keyed one address bit at a time: CIDR ranges are
//! inserted with an associated value, and point queries return the value of
//! the most specific (longest) registered prefix covering the address.

mod bits;
mod cidr;
mod gen;
mod searchers;
mod trie;

pub use bits::is_prefix_mask;
pub use bits::lemma_path_bits_eq;
pub use bits::path_bits;
pub use bits::top_bit;
pub use cidr::ParseError;
pub use cidr::cidr2u32range;
pub use cidr::cidr2u64range;
pub use cidr::dec_val;
pub use cidr::digit_run_end;
pub use cidr::is_ascii_digit;
pub use cidr::spec_parse_cidr;
pub use cidr::xd;
pub use gen::generate_cidrs;
pub use gen::generate_ips;
pub use searchers::BTreeMapIpSearcher;
pub use searchers::HashMapIpSearcher;
pub use searchers::NodeRecord;
pub use trie::IpTrie;
pub use trie::IpTrieNode;
pub use trie::Ipv4CidrRange;
pub use trie::Node;
pub use trie::RangeError;
pub use trie::Tree;
pub use trie::inserted;
pub use trie::lemma_insert_idempotent;
pub use trie::lemma_insert_overwrite;
pub use trie::opt_or;
