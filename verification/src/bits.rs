use vstd::prelude::*;

verus! {

/// True when the most significant bit of `a` is set: the first bit a trie
/// descent consumes.
pub open spec fn top_bit(a: u32) -> bool {
    a & 0x8000_0000u32 != 0
}

/// `a` with its most significant bit shifted out, exposing the next one.
pub open spec fn shift1(a: u32) -> u32 {
    (a << 1u32) as u32
}

/// The first `len` bits of `a`, most significant first, as the sequence of
/// child choices a trie descent makes for that address.
pub open spec fn path_bits(a: u32, len: nat) -> Seq<bool>
    decreases len,
{
    if len == 0 {
        Seq::empty()
    } else {
        seq![top_bit(a)] + path_bits(shift1(a), (len - 1) as nat)
    }
}

pub proof fn lemma_path_bits_len(a: u32, len: nat)
    ensures
        path_bits(a, len).len() == len,
    decreases len,
{
    if len > 0 {
        lemma_path_bits_len(shift1(a), (len - 1) as nat);
    }
}

pub proof fn lemma_path_bits_drop_first(a: u32, len: nat)
    requires
        len > 0,
    ensures
        path_bits(a, len).drop_first() =~= path_bits(shift1(a), (len - 1) as nat),
{
    lemma_path_bits_len(shift1(a), (len - 1) as nat);
}

/// Truncating a bit path is the same as taking the path of a shorter length.
pub proof fn lemma_path_bits_take(a: u32, len: nat, j: nat)
    requires
        j <= len,
    ensures
        path_bits(a, len).take(j as int) =~= path_bits(a, j),
    decreases j,
{
    lemma_path_bits_len(a, len);
    lemma_path_bits_len(a, j);
    if j > 0 {
        lemma_path_bits_take(shift1(a), (len - 1) as nat, (j - 1) as nat);
        lemma_path_bits_len(shift1(a), (len - 1) as nat);
        lemma_path_bits_len(shift1(a), (j - 1) as nat);
        assert(path_bits(a, len).take(j as int) =~= path_bits(a, j)) by {
            assert forall|i: int| 0 <= i < j implies path_bits(a, len).take(j as int)[i]
                == path_bits(a, j)[i] by {
                if i > 0 {
                    assert(path_bits(a, len)[i] == path_bits(shift1(a), (len - 1) as nat)[i - 1]);
                    assert(path_bits(shift1(a), (len - 1) as nat).take((j - 1) as int)[i - 1]
                        == path_bits(shift1(a), (j - 1) as nat)[i - 1]);
                    assert(path_bits(a, j)[i] == path_bits(shift1(a), (j - 1) as nat)[i - 1]);
                }
            }
        }
    }
}

/// Bit `i` of `a`, counted from the most significant end: bit 0 is the one a
/// trie descent consumes first.
pub open spec fn bit_from_top(a: u32, i: int) -> bool {
    (a >> ((31 - i) as u32)) & 1u32 == 1
}

/// A bit path indexes the address bits from the most significant end.
pub proof fn lemma_path_bits_index(a: u32, len: nat, j: int)
    requires
        0 <= j < len <= 32,
    ensures
        path_bits(a, len)[j] == bit_from_top(a, j),
    decreases j,
{
    lemma_path_bits_len(a, len);
    if j == 0 {
        assert((a & 0x8000_0000u32 != 0) == ((a >> 31u32) & 1u32 == 1)) by (bit_vector);
    } else {
        lemma_path_bits_index(shift1(a), (len - 1) as nat, j - 1);
        lemma_path_bits_len(shift1(a), (len - 1) as nat);
        let s = (31 - j) as u32;
        assert((((a << 1u32) >> ((s + 1) as u32)) & 1u32) == ((a >> s) & 1u32)) by (bit_vector)
            requires
                s <= 30u32,
        ;
        assert((31 - (j - 1)) as u32 == (s + 1) as u32);
        assert(path_bits(a, len)[j] == path_bits(shift1(a), (len - 1) as nat)[j - 1]);
    }
}

/// Two addresses that agree on their top `len` bits follow the same path
/// into the trie: agreement is phrased as equality after shifting the other
/// bits out.
pub proof fn lemma_path_bits_eq(x: u32, y: u32, len: nat)
    requires
        len <= 32,
        x >> ((32 - len) as u32) == y >> ((32 - len) as u32),
    ensures
        path_bits(x, len) =~= path_bits(y, len),
{
    lemma_path_bits_len(x, len);
    lemma_path_bits_len(y, len);
    assert forall|j: int| 0 <= j < len implies path_bits(x, len)[j] == path_bits(y, len)[j] by {
        lemma_path_bits_index(x, len, j);
        lemma_path_bits_index(y, len, j);
        let s = (31 - j) as u32;
        let low = (32 - len) as u32;
        assert(((x >> s) & 1u32) == (((x >> low) >> ((s - low) as u32)) & 1u32)) by (bit_vector)
            requires
                low <= s <= 31u32,
        ;
        assert(((y >> s) & 1u32) == (((y >> low) >> ((s - low) as u32)) & 1u32)) by (bit_vector)
            requires
                low <= s <= 31u32,
        ;
    }
}

/// `m` is the contiguous mask whose top `len` bits are set and whose lower
/// bits are clear.
pub open spec fn is_prefix_mask(m: u32, len: nat) -> bool {
    len <= 32 && path_bits(m, 32) =~= Seq::new(32, |i: int| i < len)
}

/// Masking an address with a prefix mask leaves the bits inside the prefix
/// untouched, so the bit path into the trie is unchanged.
pub proof fn lemma_mask_and_path(x: u32, m: u32, mlen: nat, len: nat)
    requires
        is_prefix_mask(m, mlen),
        len <= mlen,
    ensures
        path_bits(x & m, len) =~= path_bits(x, len),
{
    lemma_path_bits_len(x & m, len);
    lemma_path_bits_len(x, len);
    assert forall|j: int| 0 <= j < len implies path_bits(x & m, len)[j] == path_bits(x, len)[j] by {
        lemma_path_bits_index(x & m, len, j);
        lemma_path_bits_index(x, len, j);
        lemma_path_bits_index(m, 32, j);
        assert(bit_from_top(m, j));
        let s = (31 - j) as u32;
        assert((((x & m) >> s) & 1u32 == 1) == ((x >> s) & 1u32 == 1)) by (bit_vector)
            requires
                (m >> s) & 1u32 == 1,
        ;
    }
}

} // verus!
