use vstd::prelude::*;

verus! {

/// Whether bit `k` (counted from the least significant) of `b` is set.
pub open spec fn bit_of(b: u8, k: nat) -> bool {
    (b >> (k as u8)) & 1u8 == 1u8
}

proof fn lemma_bit_or_mask(x: u8, pos: u8, k: u8)
    requires
        pos < 8,
        k < 8,
    ensures
        ((x | (1u8 << pos)) >> k) & 1u8 == 1u8 <==> (k == pos || (x >> k) & 1u8 == 1u8),
{
    assert(((x | (1u8 << pos)) >> k) & 1u8 == 1u8 <==> (k == pos || (x >> k) & 1u8 == 1u8))
        by (bit_vector)
        requires
            pos < 8,
            k < 8,
    ;
}

proof fn lemma_bit_and_not_mask(x: u8, pos: u8, k: u8)
    requires
        pos < 8,
        k < 8,
    ensures
        ((x & !(1u8 << pos)) >> k) & 1u8 == 1u8 <==> (k != pos && (x >> k) & 1u8 == 1u8),
{
    assert(((x & !(1u8 << pos)) >> k) & 1u8 == 1u8 <==> (k != pos && (x >> k) & 1u8 == 1u8))
        by (bit_vector)
        requires
            pos < 8,
            k < 8,
    ;
}

proof fn lemma_bit_or(x: u8, y: u8, k: u8)
    requires
        k < 8,
    ensures
        ((x | y) >> k) & 1u8 == 1u8 <==> ((x >> k) & 1u8 == 1u8 || (y >> k) & 1u8 == 1u8),
{
    assert(((x | y) >> k) & 1u8 == 1u8 <==> ((x >> k) & 1u8 == 1u8 || (y >> k) & 1u8 == 1u8))
        by (bit_vector)
        requires
            k < 8,
    ;
}

proof fn lemma_bit_zero(k: u8)
    requires
        k < 8,
    ensures
        (0u8 >> k) & 1u8 != 1u8,
{
    assert((0u8 >> k) & 1u8 != 1u8) by (bit_vector);
}

proof fn lemma_bit_values(x: u8, k: u8)
    requires
        k < 8,
    ensures
        ((x >> k) & 1u8 == 1u8) <==> ((x >> k) & 1u8 != 0u8),
{
    assert(((x >> k) & 1u8 == 1u8) <==> ((x >> k) & 1u8 != 0u8)) by (bit_vector);
}

/// A fixed-capacity set of small integers, stored one bit per index.
///
/// Its view is the sequence of its bits, as long as its capacity.
#[derive(Clone, Debug)]
pub struct BitArray {
    bytes: Vec<u8>,
    len: usize,
}

impl View for BitArray {
    type V = Seq<bool>;

    closed spec fn view(&self) -> Seq<bool> {
        Seq::new(self.len as nat, |i: int| bit_of(self.bytes@[i / 8], (i % 8) as nat))
    }
}

impl BitArray {
    /// Enough bytes for the capacity, and every bit past the capacity cleared.
    pub closed spec fn wf(&self) -> bool {
        &&& self.bytes@.len() == (self.len as int + 7) / 8
        &&& forall|i: int|
            self.len <= i < 8 * self.bytes@.len() ==> !bit_of(
                #[trigger] self.bytes@[i / 8],
                (i % 8) as nat,
            )
    }

    pub closed spec fn spec_bytes(&self) -> Seq<u8> {
        self.bytes@
    }

    /// An empty set with room for the indices `0..n`.
    pub fn new(n: usize) -> (r: Self)
        ensures
            r.wf(),
            r@ == Seq::new(n as nat, |i: int| false),
            r.spec_bytes().len() == n / 8 + (if n % 8 != 0 { 1int } else { 0int }),
    {
        let count: usize = n / 8 + (if n % 8 != 0 { 1usize } else { 0usize });
        let bytes: Vec<u8> = vec![0u8; count];
        let r = BitArray { bytes, len: n };
        assert forall|i: int| 0 <= i < 8 * r.bytes@.len() implies !bit_of(
            #[trigger] r.bytes@[i / 8],
            (i % 8) as nat,
        ) by {
            lemma_bit_zero((i % 8) as u8);
        }
        assert(r@ =~= Seq::new(n as nat, |i: int| false));
        r
    }

    /// The capacity: how many indices the set has room for.
    pub fn len(&self) -> (r: usize)
        ensures
            r == self@.len(),
    {
        self.len
    }

    /// How many bytes hold the bits.
    pub fn byte_len(&self) -> (r: usize)
        ensures
            r == self.spec_bytes().len(),
    {
        self.bytes.len()
    }

    /// Whether `i` is in the set.
    pub fn get(&self, i: usize) -> (r: bool)
        requires
            self.wf(),
            i < self@.len(),
        ensures
            r == self@[i as int],
    {
        let b = self.bytes[i / 8];
        let k = (i % 8) as u8;
        proof {
            lemma_bit_values(b, k);
        }
        (b >> k) & 1u8 != 0u8
    }

    /// Puts `i` in the set when `has` holds, and takes it out otherwise.
    pub fn set(&mut self, i: usize, has: bool)
        requires
            old(self).wf(),
            i < old(self)@.len(),
        ensures
            final(self).wf(),
            final(self)@ == old(self)@.update(i as int, has),
    {
        if has {
            self.add(i);
        } else {
            self.rm(i);
        }
    }

    /// Puts `i` in the set.
    pub fn add(&mut self, i: usize)
        requires
            old(self).wf(),
            i < old(self)@.len(),
        ensures
            final(self).wf(),
            final(self)@ == old(self)@.update(i as int, true),
    {
        self.add_if(i, true);
    }

    /// Puts `i` in the set when `cond` holds; otherwise changes nothing.
    pub fn add_if(&mut self, i: usize, cond: bool)
        requires
            old(self).wf(),
            i < old(self)@.len(),
        ensures
            final(self).wf(),
            final(self)@ == (if cond { old(self)@.update(i as int, true) } else { old(self)@ }),
    {
        if cond {
            let ghost before = self.bytes@;
            let pos = (i % 8) as u8;
            let x = self.bytes[i / 8];
            self.bytes.set(i / 8, x | (1u8 << pos));
            proof {
                assert forall|j: int| 0 <= j < 8 * self.bytes@.len() implies (bit_of(
                    #[trigger] self.bytes@[j / 8],
                    (j % 8) as nat,
                ) <==> (j == i || bit_of(before[j / 8], (j % 8) as nat))) by {
                    if j / 8 == i / 8 {
                        lemma_bit_or_mask(x, pos, (j % 8) as u8);
                    }
                }
                assert(self@ =~= old(self)@.update(i as int, true));
            }
        }
    }

    /// Takes `i` out of the set.
    pub fn rm(&mut self, i: usize)
        requires
            old(self).wf(),
            i < old(self)@.len(),
        ensures
            final(self).wf(),
            final(self)@ == old(self)@.update(i as int, false),
    {
        self.rm_if(i, true);
    }

    /// Takes `i` out of the set when `cond` holds; otherwise changes nothing.
    pub fn rm_if(&mut self, i: usize, cond: bool)
        requires
            old(self).wf(),
            i < old(self)@.len(),
        ensures
            final(self).wf(),
            final(self)@ == (if cond { old(self)@.update(i as int, false) } else { old(self)@ }),
    {
        if cond {
            let ghost before = self.bytes@;
            let pos = (i % 8) as u8;
            let x = self.bytes[i / 8];
            self.bytes.set(i / 8, x & !(1u8 << pos));
            proof {
                assert forall|j: int| 0 <= j < 8 * self.bytes@.len() implies (bit_of(
                    #[trigger] self.bytes@[j / 8],
                    (j % 8) as nat,
                ) <==> (j != i && bit_of(before[j / 8], (j % 8) as nat))) by {
                    if j / 8 == i / 8 {
                        lemma_bit_and_not_mask(x, pos, (j % 8) as u8);
                    }
                }
                assert(self@ =~= old(self)@.update(i as int, false));
            }
        }
    }
}


impl BitArray {
    /// A set whose bits are those of `bytes`, eight per byte, least significant first.
    pub fn from_bytes(bytes: &[u8]) -> (r: Self)
        requires
            8 * bytes@.len() <= usize::MAX,
        ensures
            r.wf(),
            r@.len() == 8 * bytes@.len(),
            forall|i: int| 0 <= i < r@.len() ==> r@[i] == bit_of(bytes@[i / 8], (i % 8) as nat),
    {
        let mut v: Vec<u8> = Vec::new();
        let mut k: usize = 0;
        while k < bytes.len()
            invariant
                k <= bytes@.len(),
                v@ == bytes@.subrange(0, k as int),
            decreases bytes@.len() - k,
        {
            v.push(bytes[k]);
            k = k + 1;
        }
        assert(v@ =~= bytes@);
        BitArray { bytes: v, len: 8 * bytes.len() }
    }

    /// The union of two sets, as long as the longer one: an index past the end
    /// of the shorter one counts as absent from it.
    pub fn bitor(&self, rhs: &BitArray) -> (r: BitArray)
        requires
            self.wf(),
            rhs.wf(),
        ensures
            r.wf(),
            r@.len() == if self@.len() >= rhs@.len() { self@.len() } else { rhs@.len() },
            forall|i: int|
                0 <= i < r@.len() ==> #[trigger] r@[i] == ((i < self@.len() && self@[i]) || (i
                    < rhs@.len() && rhs@[i])),
    {
        let (short, long) = if self.len < rhs.len {
            (self, rhs)
        } else {
            (rhs, self)
        };
        let mut bytes: Vec<u8> = Vec::new();
        let mut k: usize = 0;
        while k < long.bytes.len()
            invariant
                short.wf(),
                long.wf(),
                short.len <= long.len,
                short.bytes@.len() <= long.bytes@.len(),
                k <= long.bytes@.len(),
                bytes@.len() == k,
                forall|j: int|
                    0 <= j < k ==> #[trigger] bytes@[j] == if j < short.bytes@.len() {
                        long.bytes@[j] | short.bytes@[j]
                    } else {
                        long.bytes@[j]
                    },
            decreases long.bytes@.len() - k,
        {
            let b = if k < short.bytes.len() {
                long.bytes[k] | short.bytes[k]
            } else {
                long.bytes[k]
            };
            bytes.push(b);
            k = k + 1;
        }
        let r = BitArray { bytes, len: long.len };
        proof {
            assert forall|i: int| 0 <= i < 8 * r.bytes@.len() implies (bit_of(
                #[trigger] r.bytes@[i / 8],
                (i % 8) as nat,
            ) <==> ((i < short.len && bit_of(short.bytes@[i / 8], (i % 8) as nat)) || bit_of(
                long.bytes@[i / 8],
                (i % 8) as nat,
            ))) by {
                if i / 8 < short.bytes@.len() {
                    lemma_bit_or(long.bytes@[i / 8], short.bytes@[i / 8], (i % 8) as u8);
                }
            }
        }
        r
    }
}

} // verus!
