//! The XOR-fold checksum appended to every packet on the wire.

use crate::packet::{ParsingError, ToBin};
use vstd::prelude::*;

verus! {

/// The `k`-byte XOR fold of `b`: byte `i` is the XOR of every `b[j]` with
/// `j % k == i`. Width 0 folds to nothing.
pub open spec fn xor_fold(b: Seq<u8>, k: nat) -> Seq<u8>
    decreases b.len(),
{
    if k == 0 {
        Seq::empty()
    } else if b.len() == 0 {
        Seq::new(k, |i: int| 0u8)
    } else {
        let c = xor_fold(b.drop_last(), k);
        let j = (b.len() - 1) % (k as int);
        c.update(j, c[j] ^ b.last())
    }
}

/// A fold of width `k` has `k` bytes.
pub proof fn lemma_xor_fold_len(b: Seq<u8>, k: nat)
    ensures
        xor_fold(b, k).len() == k,
    decreases b.len(),
{
    if k != 0 && b.len() != 0 {
        lemma_xor_fold_len(b.drop_last(), k);
    }
}

/// Folding one more byte updates a single position of the fold.
proof fn lemma_xor_fold_step(b: Seq<u8>, n: int, k: nat)
    requires
        0 <= n < b.len(),
        k > 0,
    ensures
        xor_fold(b.subrange(0, n + 1), k) == xor_fold(b.subrange(0, n), k).update(
            n % (k as int),
            xor_fold(b.subrange(0, n), k)[n % (k as int)] ^ b[n],
        ),
{
    assert(b.subrange(0, n + 1).drop_last() =~= b.subrange(0, n));
}

/// Changing byte `j` of `s` to `v` changes only fold byte `j % k`, by the
/// XOR of the old and the new byte.
pub proof fn lemma_xor_fold_update(s: Seq<u8>, k: nat, j: int, v: u8)
    requires
        k > 0,
        0 <= j < s.len(),
    ensures
        xor_fold(s.update(j, v), k) == xor_fold(s, k).update(
            j % (k as int),
            xor_fold(s, k)[j % (k as int)] ^ s[j] ^ v,
        ),
    decreases s.len(),
{
    let s2 = s.update(j, v);
    let c = xor_fold(s.drop_last(), k);
    let m = (s.len() - 1) % (k as int);
    let i = j % (k as int);
    lemma_xor_fold_len(s.drop_last(), k);
    lemma_xor_fold_len(s, k);
    lemma_xor_fold_len(s2, k);
    if j == s.len() - 1 {
        assert(s2.drop_last() =~= s.drop_last());
        let x = c[m];
        let y = s[j];
        assert(x ^ v == ((x ^ y) ^ y) ^ v) by (bit_vector);
        assert(xor_fold(s2, k) =~= xor_fold(s, k).update(i, xor_fold(s, k)[i] ^ s[j] ^ v));
    } else {
        assert(s2.drop_last() =~= s.drop_last().update(j, v));
        lemma_xor_fold_update(s.drop_last(), k, j, v);
        let l = s.last();
        assert(s2.last() == l);
        if m == i {
            let x = c[m];
            let y = s[j];
            assert(((x ^ y) ^ v) ^ l == ((x ^ l) ^ y) ^ v) by (bit_vector);
        }
        assert(xor_fold(s2, k) =~= xor_fold(s, k).update(i, xor_fold(s, k)[i] ^ s[j] ^ v));
    }
}

/// A checksum block: the fold of a packet's content, or the bytes that
/// trail a packet on the wire.
pub struct Checksum {
    pub size: usize,
    pub checksum: Vec<u8>,
}

impl Checksum {
    /// Whether the recorded size is the number of checksum bytes.
    pub open spec fn wf(&self) -> bool {
        self.size == self.checksum@.len()
    }

    /// The checksum of width `checksum_size` over `packet_buffer`.
    pub fn from_packet_content(packet_buffer: &[u8], checksum_size: usize) -> (r: Self)
        ensures
            r.wf(),
            r.size == checksum_size,
            r.checksum@ == xor_fold(packet_buffer@, checksum_size as nat),
    {
        let k = checksum_size;
        let mut buffer: Vec<u8> = Vec::new();
        let mut i: usize = 0;
        while i < k
            invariant
                i <= k,
                buffer@ == Seq::new(i as nat, |j: int| 0u8),
            decreases k - i,
        {
            buffer.push(0);
            i = i + 1;
        }
        if k > 0 {
            let n = packet_buffer.len();
            let mut j: usize = 0;
            assert(packet_buffer@.subrange(0, 0) =~= Seq::<u8>::empty());
            assert(buffer@ =~= xor_fold(packet_buffer@.subrange(0, 0), k as nat));
            while j < n
                invariant
                    k > 0,
                    n == packet_buffer@.len(),
                    j <= n,
                    buffer@ == xor_fold(packet_buffer@.subrange(0, j as int), k as nat),
                decreases n - j,
            {
                proof {
                    lemma_xor_fold_len(packet_buffer@.subrange(0, j as int), k as nat);
                    lemma_xor_fold_step(packet_buffer@, j as int, k as nat);
                }
                let at = j % k;
                let folded = buffer[at] ^ packet_buffer[j];
                buffer.set(at, folded);
                j = j + 1;
            }
            assert(packet_buffer@.subrange(0, n as int) =~= packet_buffer@);
        } else {
            assert(buffer@ =~= xor_fold(packet_buffer@, 0));
        }
        proof {
            lemma_xor_fold_len(packet_buffer@, k as nat);
        }
        Checksum { size: k, checksum: buffer }
    }

    /// The bytes of `buffer`, taken as they stand.
    pub fn from_bytes(buffer: &[u8]) -> (r: Self)
        ensures
            r.wf(),
            r.checksum@ == buffer@,
    {
        let checksum = vstd::slice::slice_to_vec(buffer);
        Checksum { size: buffer.len(), checksum }
    }

    /// Whether both blocks have the same width and the same bytes.
    pub fn is_same(&self, second: &Self) -> (r: bool)
        requires
            self.wf(),
            second.wf(),
        ensures
            r == (self.size == second.size && self.checksum@ == second.checksum@),
    {
        if self.size != second.size {
            return false;
        }
        let mut i: usize = 0;
        while i < self.size
            invariant
                self.wf(),
                second.wf(),
                self.size == second.size,
                i <= self.size,
                self.checksum@.subrange(0, i as int) == second.checksum@.subrange(0, i as int),
            decreases self.size - i,
        {
            if self.checksum[i] != second.checksum[i] {
                assert(self.checksum@[i as int] != second.checksum@[i as int]);
                return false;
            }
            assert(self.checksum@.subrange(0, i + 1) =~= self.checksum@.subrange(0, i as int).push(
                self.checksum@[i as int],
            ));
            assert(second.checksum@.subrange(0, i + 1) =~= second.checksum@.subrange(
                0,
                i as int,
            ).push(second.checksum@[i as int]));
            i = i + 1;
        }
        assert(self.checksum@ =~= self.checksum@.subrange(0, i as int));
        assert(second.checksum@ =~= second.checksum@.subrange(0, i as int));
        true
    }
}

impl ToBin for Checksum {
    open spec fn spec_bin(&self) -> Seq<u8> {
        self.checksum@
    }

    open spec fn spec_writable(&self) -> bool {
        self.wf()
    }

    fn bin_size(&self) -> (r: usize) {
        self.size
    }

    fn to_bin_buff(&self, buff: &mut Vec<u8>) -> (r: usize) {
        let ghost start = buff@;
        let mut i: usize = 0;
        while i < self.size
            invariant
                self.wf(),
                i <= self.size,
                self.size <= start.len(),
                buff@.len() == start.len(),
                forall|j: int| 0 <= j < i ==> #[trigger] buff@[j] == self.checksum@[j],
                forall|j: int| self.size <= j < start.len() ==> #[trigger] buff@[j] == start[j],
            decreases self.size - i,
        {
            buff.set(i, self.checksum[i]);
            i = i + 1;
        }
        assert(buff@ =~= self.checksum@ + start.subrange(self.size as int, start.len() as int));
        self.size
    }

    fn from_bin(memory: &[u8]) -> (r: Result<Self, ParsingError>)
        ensures
            r is Ok,
            r->Ok_0.wf(),
            r->Ok_0.checksum@ == memory@,
    {
        Ok(Checksum::from_bytes(memory))
    }
}

impl<'a> From<&'a [u8]> for Checksum {
    fn from(buffer: &'a [u8]) -> (r: Self)
        ensures
            r.wf(),
            r.checksum@ == buffer@,
    {
        Checksum::from_bytes(buffer)
    }
}

impl<'a> vstd::std_specs::convert::FromSpecImpl<&'a [u8]> for Checksum {
    open spec fn obeys_from_spec() -> bool {
        false
    }

    open spec fn from_spec(v: &'a [u8]) -> Self {
        vstd::pervasive::arbitrary()
    }
}

} // verus!
