use vstd::prelude::*;

verus! {

/// Bit `b` of a word sequence read as a little-endian bitset.
pub open spec fn bs_has(s: Seq<u32>, b: int) -> bool {
    (s[b / 32] >> ((b % 32) as u32)) & 1u32 == 1u32
}

/// Number of byte values a word sequence can hold.
pub open spec fn bs_capacity(s: Seq<u32>) -> int {
    (s.len() * 32) as int
}

proof fn lemma_bit_mask(x: u32, k: u32)
    requires
        k < 32,
    ensures
        (x & (1u32 << k) != 0u32) == ((x >> k) & 1u32 == 1u32),
{
    assert((x & (1u32 << k) != 0u32) == ((x >> k) & 1u32 == 1u32)) by (bit_vector)
        requires
            k < 32,
    ;
}

proof fn lemma_bit_or(x: u32, k: u32, j: u32)
    requires
        k < 32,
        j < 32,
    ensures
        (((x | (1u32 << k)) >> j) & 1u32 == 1u32) == (j == k || (x >> j) & 1u32 == 1u32),
{
    assert((((x | (1u32 << k)) >> j) & 1u32 == 1u32) == (j == k || (x >> j) & 1u32 == 1u32))
        by (bit_vector)
        requires
            k < 32,
            j < 32,
    ;
}

proof fn lemma_bit_clear(x: u32, k: u32, j: u32)
    requires
        k < 32,
        j < 32,
    ensures
        (((x & !(1u32 << k)) >> j) & 1u32 == 1u32) == (j != k && (x >> j) & 1u32 == 1u32),
{
    assert((((x & !(1u32 << k)) >> j) & 1u32 == 1u32) == (j != k && (x >> j) & 1u32 == 1u32))
        by (bit_vector)
        requires
            k < 32,
            j < 32,
    ;
}

proof fn lemma_word_or(x: u32, y: u32, j: u32)
    requires
        j < 32,
    ensures
        (((x | y) >> j) & 1u32 == 1u32) == ((x >> j) & 1u32 == 1u32 || (y >> j) & 1u32 == 1u32),
{
    assert((((x | y) >> j) & 1u32 == 1u32) == ((x >> j) & 1u32 == 1u32 || (y >> j) & 1u32
        == 1u32)) by (bit_vector)
        requires
            j < 32,
    ;
}

proof fn lemma_word_and(x: u32, y: u32, j: u32)
    requires
        j < 32,
    ensures
        (((x & y) >> j) & 1u32 == 1u32) == ((x >> j) & 1u32 == 1u32 && (y >> j) & 1u32 == 1u32),
{
    assert((((x & y) >> j) & 1u32 == 1u32) == ((x >> j) & 1u32 == 1u32 && (y >> j) & 1u32
        == 1u32)) by (bit_vector)
        requires
            j < 32,
    ;
}

proof fn lemma_word_index(j: int, i: int)
    requires
        0 <= j,
        0 <= i,
    ensures
        (j / 32 < i) == (j < i * 32),
        j < (i + 1) * 32 ==> j / 32 <= i,
{
    assert((j / 32 < i) == (j < i * 32)) by (nonlinear_arith)
        requires
            0 <= j,
            0 <= i,
    ;
    assert(j < (i + 1) * 32 ==> j / 32 <= i) by (nonlinear_arith)
        requires
            0 <= j,
            0 <= i,
    ;
}

proof fn lemma_word_zero(j: u32)
    requires
        j < 32,
    ensures
        (0u32 >> j) & 1u32 == 0u32,
{
    assert((0u32 >> j) & 1u32 == 0u32) by (bit_vector);
}

/// Whether byte value `b` is in the set.
pub fn byteset_contains(s: &[u32], b: usize) -> (r: bool)
    requires
        b < bs_capacity(s@),
    ensures
        r == bs_has(s@, b as int),
{
    proof {
        lemma_bit_mask(s@[b as int / 32], (b % 32) as u32);
    }
    s[b / 32] & (1u32 << ((b % 32) as u32)) != 0
}

/// Adds byte value `b` to the set.
pub fn byteset_set(s: &mut Vec<u32>, b: usize)
    requires
        b < bs_capacity(old(s)@),
    ensures
        final(s)@.len() == old(s)@.len(),
        forall|j: int|
            0 <= j < bs_capacity(old(s)@) ==> bs_has(final(s)@, j) == (j == b || bs_has(
                old(s)@,
                j,
            )),
{
    let w = b / 32;
    let v = s[w] | (1u32 << ((b % 32) as u32));
    s.set(w, v);
    assert forall|j: int| 0 <= j < bs_capacity(old(s)@) implies bs_has(s@, j) == (j == b
        || bs_has(old(s)@, j)) by {
        if j / 32 == w as int {
            lemma_bit_or(old(s)@[j / 32], (b % 32) as u32, (j % 32) as u32);
        }
    }
}

/// Removes byte value `b` from the set.
pub fn byteset_clear(s: &mut Vec<u32>, b: usize)
    requires
        b < bs_capacity(old(s)@),
    ensures
        final(s)@.len() == old(s)@.len(),
        forall|j: int|
            0 <= j < bs_capacity(old(s)@) ==> bs_has(final(s)@, j) == (j != b && bs_has(
                old(s)@,
                j,
            )),
{
    let w = b / 32;
    let v = s[w] & !(1u32 << ((b % 32) as u32));
    s.set(w, v);
    assert forall|j: int| 0 <= j < bs_capacity(old(s)@) implies bs_has(s@, j) == (j != b
        && bs_has(old(s)@, j)) by {
        if j / 32 == w as int {
            lemma_bit_clear(old(s)@[j / 32], (b % 32) as u32, (j % 32) as u32);
        }
    }
}

/// Adds every byte value of the inclusive range `start..=end`.
pub fn byteset_set_range(s: &mut Vec<u32>, start: u8, end: u8)
    requires
        start > end || end < bs_capacity(old(s)@),
    ensures
        final(s)@.len() == old(s)@.len(),
        forall|j: int|
            0 <= j < bs_capacity(old(s)@) ==> bs_has(final(s)@, j) == ((start <= j <= end)
                || bs_has(old(s)@, j)),
{
    let mut i: usize = start as usize;
    if start > end {
        return ;
    }
    assert(end < bs_capacity(old(s)@));
    while i <= end as usize
        invariant
            start <= i <= end as usize + 1,
            end < 256,
            s@.len() == old(s)@.len(),
            end < bs_capacity(old(s)@),
            forall|j: int|
                0 <= j < bs_capacity(old(s)@) ==> bs_has(s@, j) == ((start <= j < i) || bs_has(
                    old(s)@,
                    j,
                )),
        decreases end as usize + 1 - i,
    {
        byteset_set(s, i);
        i = i + 1;
    }
}

/// Adds every member of `other` to `s`.
pub fn byteset_union(s: &mut Vec<u32>, other: &[u32])
    requires
        other@.len() >= old(s)@.len(),
    ensures
        final(s)@.len() == old(s)@.len(),
        forall|j: int|
            0 <= j < bs_capacity(old(s)@) ==> bs_has(final(s)@, j) == (bs_has(old(s)@, j)
                || bs_has(other@, j)),
{
    let n = s.len();
    let mut i: usize = 0;
    while i < n
        invariant
            i <= n,
            n == s@.len(),
            n == old(s)@.len(),
            n <= other@.len(),
            forall|k: int| i <= k < n ==> s@[k] == old(s)@[k],
            forall|k: int| 0 <= k < i ==> s@[k] == (old(s)@[k] | other@[k]),
        decreases n - i,
    {
        let v = s[i] | other[i];
        s.set(i, v);
        i = i + 1;
    }
    proof {
        let ghost a = old(s)@;
        let ghost c = s@;
        assert forall|j: int| 0 <= j < bs_capacity(a) implies #[trigger] bs_has(c, j) == (bs_has(
            a,
            j,
        ) || bs_has(other@, j)) by {
            lemma_word_index(j, n as int);
            lemma_word_or(a[j / 32], other@[j / 32], (j % 32) as u32);
        }
    }
}

/// Keeps in `s` only the members that `other` also has.
pub fn byteset_intersection(s: &mut Vec<u32>, other: &[u32])
    requires
        other@.len() >= old(s)@.len(),
    ensures
        final(s)@.len() == old(s)@.len(),
        forall|j: int|
            0 <= j < bs_capacity(old(s)@) ==> bs_has(final(s)@, j) == (bs_has(old(s)@, j)
                && bs_has(other@, j)),
{
    let n = s.len();
    let mut i: usize = 0;
    while i < n
        invariant
            i <= n,
            n == s@.len(),
            n == old(s)@.len(),
            n <= other@.len(),
            forall|k: int| i <= k < n ==> s@[k] == old(s)@[k],
            forall|k: int| 0 <= k < i ==> s@[k] == (old(s)@[k] & other@[k]),
        decreases n - i,
    {
        let v = s[i] & other[i];
        s.set(i, v);
        i = i + 1;
    }
    proof {
        let ghost a = old(s)@;
        let ghost c = s@;
        assert forall|j: int| 0 <= j < bs_capacity(a) implies #[trigger] bs_has(c, j) == (bs_has(
            a,
            j,
        ) && bs_has(other@, j)) by {
            lemma_word_index(j, n as int);
            lemma_word_and(a[j / 32], other@[j / 32], (j % 32) as u32);
        }
    }
}

/// The empty set over the 256 byte values.
pub fn byteset_256() -> (r: Vec<u32>)
    ensures
        r@.len() == 8,
        forall|j: int| 0 <= j < 256 ==> !bs_has(r@, j),
{
    let r: Vec<u32> = vec![0u32; 8];
    assert forall|j: int| 0 <= j < 256 implies !bs_has(r@, j) by {
        lemma_word_zero((j % 32) as u32);
    }
    r
}

/// The set of the 256 byte values that holds exactly `start..=end`.
pub fn byteset_from_range(start: u8, end: u8) -> (r: Vec<u32>)
    ensures
        r@.len() == 8,
        forall|j: int| 0 <= j < 256 ==> bs_has(r@, j) == (start <= j <= end),
{
    let mut s = byteset_256();
    byteset_set_range(&mut s, start, end);
    s
}

} // verus!
