use vstd::prelude::*;

verus! {

/// Whether bit `k` (0 is the most significant) of byte `b` is set.
pub open spec fn bit_of(b: u8, k: int) -> bool {
    (b & (0x80u8 >> (k as u8))) != 0
}

/// Bit `i` of a byte-packed, MSB-first bit vector.
pub open spec fn packed_bit(bytes: Seq<u8>, i: int) -> bool {
    bit_of(bytes[i / 8], i % 8)
}

/// The number of bytes that hold `num` bits.
pub open spec fn bytes_for(num: nat) -> nat {
    (num + 7) / 8
}

/// The number of `true` entries of a sequence of booleans.
pub open spec fn count_true(s: Seq<bool>) -> nat
    decreases s.len(),
{
    if s.len() == 0 {
        0
    } else {
        count_true(s.drop_last()) + if s.last() { 1nat } else { 0nat }
    }
}

/// The mask that keeps the `extra` most significant bits of a byte (all of
/// them when `extra` is zero).
pub open spec fn last_mask_of(extra: int) -> u8 {
    if extra == 0 {
        0xFFu8
    } else {
        !(0xFFu8 >> (extra as u8))
    }
}

#[derive(Debug)]
pub enum BitfieldError {
    Unrepresentible { num_fields: usize, num_elements: usize },
    PieceOutOfRange(usize),
}

/// A packed vector of `num` booleans, most significant bit first in each byte.
#[derive(Debug)]
pub struct Bitfield {
    masks: Vec<u8>,
    num: usize,
    last_mask: u8,
}

proof fn lemma_bit_set(b: u8, k: u8, j: u8)
    requires
        k < 8,
        j < 8,
    ensures
        ((b | (0x80u8 >> k)) & (0x80u8 >> j)) != 0 <==> (j == k || (b & (0x80u8 >> j)) != 0),
{
    assert(((b | (0x80u8 >> k)) & (0x80u8 >> j)) != 0 <==> (j == k || (b & (0x80u8 >> j)) != 0))
        by (bit_vector)
        requires
            k < 8,
            j < 8,
    ;
}

proof fn lemma_bit_clear(b: u8, k: u8, j: u8)
    requires
        k < 8,
        j < 8,
    ensures
        ((b & !(0x80u8 >> k)) & (0x80u8 >> j)) != 0 <==> (j != k && (b & (0x80u8 >> j)) != 0),
{
    assert(((b & !(0x80u8 >> k)) & (0x80u8 >> j)) != 0 <==> (j != k && (b & (0x80u8 >> j)) != 0))
        by (bit_vector)
        requires
            k < 8,
            j < 8,
    ;
}

proof fn lemma_bit_masked(b: u8, e: u8, j: u8)
    requires
        0 < e < 8,
        j < 8,
    ensures
        ((b & !(0xFFu8 >> e)) & (0x80u8 >> j)) != 0 <==> (j < e && (b & (0x80u8 >> j)) != 0),
{
    assert(((b & !(0xFFu8 >> e)) & (0x80u8 >> j)) != 0 <==> (j < e && (b & (0x80u8 >> j)) != 0))
        by (bit_vector)
        requires
            0 < e < 8,
            j < 8,
    ;
}

proof fn lemma_bit_full_empty(j: u8)
    requires
        j < 8,
    ensures
        (0xFFu8 & (0x80u8 >> j)) != 0,
        (0u8 & (0x80u8 >> j)) == 0,
{
    assert((0xFFu8 & (0x80u8 >> j)) != 0 && (0u8 & (0x80u8 >> j)) == 0) by (bit_vector)
        requires
            j < 8,
    ;
}

proof fn lemma_div8(i: int, n: int)
    requires
        0 <= i < 8 * n,
    ensures
        0 <= i / 8 < n,
        0 <= i % 8 < 8,
        i == 8 * (i / 8) + i % 8,
{
    assert(0 <= i / 8 < n) by (nonlinear_arith)
        requires
            0 <= i < 8 * n,
    ;
}

proof fn lemma_bytes_for(num: nat)
    ensures
        num <= 8 * bytes_for(num) < num + 8,
{
}

impl Bitfield {
    /// The bits, in order.
    pub closed spec fn view(&self) -> Seq<bool> {
        Seq::new(self.num as nat, |i: int| packed_bit(self.masks@, i))
    }

    /// One byte per eight bits, the unused low bits of the final byte clear.
    pub closed spec fn wf(&self) -> bool {
        &&& self.masks@.len() == bytes_for(self.num as nat)
        &&& self.last_mask == last_mask_of(self.num as int % 8)
        &&& forall|i: int|
            self.num <= i < 8 * self.masks@.len() ==> !#[trigger] packed_bit(self.masks@, i)
    }

    /// A bitfield of `num` bits, each of them `set`.
    pub fn new(num: usize, set: bool) -> (r: Self)
        ensures
            r.wf(),
            r@.len() == num,
            r@ == Seq::new(num as nat, |i: int| set),
    {
        let num_elements: usize = num / 8 + if num % 8 == 0 { 0 } else { 1 };
        let fill: u8 = if set { 0xFF } else { 0 };
        let masks: Vec<u8> = vec![fill; num_elements];
        let r = Self::from_vec(masks, num);
        proof {
            assert forall|i: int| 0 <= i < num implies packed_bit(masks@, i) == set by {
                lemma_div8(i, masks@.len() as int);
                lemma_bit_full_empty((i % 8) as u8);
            }
            assert(r@ =~= Seq::new(num as nat, |i: int| set));
        }
        r
    }

    /// The first `num` bits of `v`; `Unrepresentible` when `v` is too short.
    pub fn try_from_vec(v: Vec<u8>, num: usize) -> (r: Result<Self, BitfieldError>)
        ensures
            match r {
                Ok(bf) => {
                    &&& v@.len() >= bytes_for(num as nat)
                    &&& bf.wf()
                    &&& bf@.len() == num
                    &&& bf@ == Seq::new(num as nat, |i: int| packed_bit(v@, i))
                },
                Err(e) => {
                    &&& v@.len() < bytes_for(num as nat)
                    &&& e == (BitfieldError::Unrepresentible {
                        num_fields: num,
                        num_elements: v@.len() as usize,
                    })
                },
            },
    {
        let num_elements: usize = num / 8 + if num % 8 == 0 { 0 } else { 1 };
        if v.len() < num_elements {
            return Err(BitfieldError::Unrepresentible { num_fields: num, num_elements: v.len() });
        }
        let mut w = v;
        w.truncate(num_elements);
        let r = Self::from_vec(w, num);
        proof {
            assert(r@ =~= Seq::new(num as nat, |i: int| packed_bit(v@, i)));
        }
        Ok(r)
    }

    fn from_vec(v: Vec<u8>, num: usize) -> (r: Self)
        requires
            v@.len() == bytes_for(num as nat),
        ensures
            r.wf(),
            r@.len() == num,
            r@ == Seq::new(num as nat, |i: int| packed_bit(v@, i)),
    {
        let extra: usize = num % 8;
        let last_mask: u8 = if extra != 0 { !(0xFFu8 >> (extra as u8)) } else { 0xFF };
        let mut masks = v;
        if extra != 0 {
            let n = masks.len();
            let last = masks[n - 1];
            masks.set(n - 1, last & last_mask);
            proof {
                assert forall|i: int| 0 <= i < 8 * masks@.len() implies packed_bit(masks@, i) == (
                i < num && packed_bit(v@, i)) by {
                    if i / 8 == n - 1 {
                        lemma_bit_masked(last, extra as u8, (i % 8) as u8);
                    }
                }
            }
        }
        let bf = Bitfield { masks, num, last_mask };
        proof {
            assert(bf@ =~= Seq::new(num as nat, |i: int| packed_bit(v@, i)));
        }
        bf
    }

    fn index_check(&self, index: usize) -> (r: Result<(), BitfieldError>)
        ensures
            r is Ok <==> index < self.num,
            r is Err ==> r == Err::<(), BitfieldError>(BitfieldError::PieceOutOfRange(index)),
    {
        if index >= self.num {
            Err(BitfieldError::PieceOutOfRange(index))
        } else {
            Ok(())
        }
    }

    /// Whether bit `index` is set; `PieceOutOfRange` past the width.
    pub fn has_piece(&self, index: usize) -> (r: Result<bool, BitfieldError>)
        requires
            self.wf(),
        ensures
            match r {
                Ok(b) => index < self@.len() && b == self@[index as int],
                Err(e) => index >= self@.len() && e == BitfieldError::PieceOutOfRange(index),
            },
    {
        self.index_check(index)?;
        let mask: u8 = 0x80u8 >> ((index % 8) as u8);
        Ok(self.masks[index / 8] & mask != 0)
    }

    /// Sets bit `index`; `PieceOutOfRange` past the width, the bits unchanged.
    pub fn mark_piece(&mut self, index: usize) -> (r: Result<(), BitfieldError>)
        requires
            old(self).wf(),
        ensures
            final(self).wf(),
            match r {
                Ok(_) => index < old(self)@.len() && final(self)@ == old(self)@.update(index as int, true),
                Err(e) => {
                    &&& index >= old(self)@.len()
                    &&& e == BitfieldError::PieceOutOfRange(index)
                    &&& final(self)@ == old(self)@
                },
            },
    {
        self.index_check(index)?;
        let ghost before = self.masks@;
        let ghost old_view = self@;
        let k: u8 = (index % 8) as u8;
        let b = self.masks[index / 8];
        self.masks.set(index / 8, b | (0x80u8 >> k));
        proof {
            assert forall|i: int| 0 <= i < 8 * before.len() implies packed_bit(self.masks@, i) == (
            i == index || packed_bit(before, i)) by {
                lemma_div8(i, before.len() as int);
                lemma_div8(index as int, before.len() as int);
                if i / 8 == index / 8 {
                    assert(self.masks@[i / 8] == b | (0x80u8 >> k));
                    lemma_bit_set(b, k, (i % 8) as u8);
                } else {
                    assert(self.masks@[i / 8] == before[i / 8]);
                }
            }
            lemma_bytes_for(self.num as nat);
            assert(self.masks@.len() == before.len());
            assert forall|i: int| self.num <= i < 8 * self.masks@.len() implies !#[trigger] packed_bit(
                self.masks@,
                i,
            ) by {
                assert(!packed_bit(before, i));
            }
            assert forall|j: int| 0 <= j < self.num implies #[trigger] self@[j] == old_view.update(
                index as int,
                true,
            )[j] by {
                assert(self@[j] == packed_bit(self.masks@, j));
                assert(old_view[j] == packed_bit(before, j));
            }
            assert(self@ =~= old_view.update(index as int, true));
        }
        Ok(())
    }

    /// Clears bit `index`; `PieceOutOfRange` past the width, the bits unchanged.
    pub fn ummark_piece(&mut self, index: usize) -> (r: Result<(), BitfieldError>)
        requires
            old(self).wf(),
        ensures
            final(self).wf(),
            match r {
                Ok(_) => index < old(self)@.len() && final(self)@ == old(self)@.update(index as int, false),
                Err(e) => {
                    &&& index >= old(self)@.len()
                    &&& e == BitfieldError::PieceOutOfRange(index)
                    &&& final(self)@ == old(self)@
                },
            },
    {
        self.index_check(index)?;
        let ghost before = self.masks@;
        let ghost old_view = self@;
        let k: u8 = (index % 8) as u8;
        let b = self.masks[index / 8];
        self.masks.set(index / 8, b & !(0x80u8 >> k));
        proof {
            assert forall|i: int| 0 <= i < 8 * before.len() implies packed_bit(self.masks@, i) == (
            i != index && packed_bit(before, i)) by {
                lemma_div8(i, before.len() as int);
                lemma_div8(index as int, before.len() as int);
                if i / 8 == index / 8 {
                    assert(self.masks@[i / 8] == b & !(0x80u8 >> k));
                    lemma_bit_clear(b, k, (i % 8) as u8);
                } else {
                    assert(self.masks@[i / 8] == before[i / 8]);
                }
            }
            lemma_bytes_for(self.num as nat);
            assert(self.masks@.len() == before.len());
            assert forall|i: int| self.num <= i < 8 * self.masks@.len() implies !#[trigger] packed_bit(
                self.masks@,
                i,
            ) by {
                assert(!packed_bit(before, i));
            }
            assert forall|j: int| 0 <= j < self.num implies #[trigger] self@[j] == old_view.update(
                index as int,
                false,
            )[j] by {
                assert(self@[j] == packed_bit(self.masks@, j));
                assert(old_view[j] == packed_bit(before, j));
            }
            assert(self@ =~= old_view.update(index as int, false));
        }
        Ok(())
    }

    /// The width: how many bits the field holds.
    pub fn num(&self) -> (r: usize)
        ensures
            r == self@.len(),
    {
        self.num
    }

    /// The number of set bits.
    pub fn num_set(&self) -> (r: usize)
        requires
            self.wf(),
        ensures
            r == count_true(self@),
            r <= self@.len(),
    {
        let mut num: usize = 0;
        let mut i: usize = 0;
        while i < self.num
            invariant
                i <= self.num,
                self.wf(),
                num == count_true(self@.take(i as int)),
                num <= i,
            decreases self.num - i,
        {
            let mask: u8 = 0x80u8 >> ((i % 8) as u8);
            let set = self.masks[i / 8] & mask != 0;
            assert(self@[i as int] == packed_bit(self.masks@, i as int));
            proof {
                assert(self@.take(i + 1).drop_last() =~= self@.take(i as int));
            }
            if set {
                num = num + 1;
            }
            i = i + 1;
        }
        proof {
            assert(self@.take(i as int) =~= self@);
        }
        num
    }

    /// The number of clear bits.
    pub fn num_unset(&self) -> (r: usize)
        requires
            self.wf(),
        ensures
            r == self@.len() - count_true(self@),
    {
        self.num - self.num_set()
    }

    /// Whether every bit is set.
    pub fn all(&self) -> (r: bool)
        requires
            self.wf(),
        ensures
            r <==> forall|i: int| 0 <= i < self@.len() ==> self@[i],
    {
        let mut i: usize = 0;
        while i < self.num
            invariant
                i <= self.num,
                self.wf(),
                forall|j: int| 0 <= j < i ==> self@[j],
            decreases self.num - i,
        {
            let mask: u8 = 0x80u8 >> ((i % 8) as u8);
            assert(self@[i as int] == packed_bit(self.masks@, i as int));
            if self.masks[i / 8] & mask == 0 {
                return false;
            }
            i = i + 1;
        }
        true
    }

    /// Whether no bit is set.
    pub fn none(&self) -> (r: bool)
        requires
            self.wf(),
        ensures
            r <==> forall|i: int| 0 <= i < self@.len() ==> !self@[i],
    {
        let mut i: usize = 0;
        while i < self.num
            invariant
                i <= self.num,
                self.wf(),
                forall|j: int| 0 <= j < i ==> !self@[j],
            decreases self.num - i,
        {
            let mask: u8 = 0x80u8 >> ((i % 8) as u8);
            assert(self@[i as int] == packed_bit(self.masks@, i as int));
            if self.masks[i / 8] & mask != 0 {
                return false;
            }
            i = i + 1;
        }
        true
    }

    /// The packed bytes.
    pub fn as_bytes(&self) -> (r: &Vec<u8>)
        ensures
            self.wf() ==> r@.len() == bytes_for(self@.len()),
            self.wf() ==> forall|i: int| 0 <= i < self@.len() ==> packed_bit(r@, i) == self@[i],
            self.wf() ==> forall|i: int| self@.len() <= i < 8 * r@.len() ==> !#[trigger] packed_bit(r@, i),
    {
        &self.masks
    }
}

/// Setting a bit and then reading it gives `true`; the other bits keep their
/// values.
pub proof fn law_set_then_get(before: Seq<bool>, after: Seq<bool>, i: int)
    requires
        0 <= i < before.len(),
        after == before.update(i, true),
    ensures
        after[i],
        forall|j: int| 0 <= j < before.len() && j != i ==> after[j] == before[j],
{
}

} // verus!
