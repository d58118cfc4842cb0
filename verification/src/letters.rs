//! Sets of lowercase letters, packed one bit per letter.

use vstd::prelude::*;

verus! {

/// Whether `c` is one of the twenty-six lowercase letters `a` to `z`.
pub open spec fn is_letter(c: char) -> bool {
    'a' <= c && c <= 'z'
}

/// Position of a lowercase letter in the alphabet, `a` being 0.
pub open spec fn letter_index(c: char) -> u32 {
    (c as u32 - 'a' as u32) as u32
}

/// The letter at position `i` of the alphabet, `a` being at 0.
pub open spec fn letter_at(i: int) -> char {
    (i + 'a' as int) as char
}

/// Whether bit `i` of `bits` is set.
pub open spec fn has_bit(bits: u32, i: u32) -> bool {
    bits & (1u32 << i) != 0
}

/// A subset of the lowercase letters.
///
/// Letter number `i` of the alphabet is a member exactly when bit `i` of the
/// mask is set; the six bits above the alphabet are always clear, so two sets
/// with the same members are the same value.
#[derive(Clone, Copy, Debug, Hash, PartialEq, Eq, Structural)]
pub struct LetterSet {
    set: u32,
}

/// The letters whose bits are set in `bits`.
pub closed spec fn members(bits: u32) -> Set<char> {
    Set::new(|c: char| is_letter(c) && has_bit(bits, letter_index(c)))
}

impl View for LetterSet {
    type V = Set<char>;

    closed spec fn view(&self) -> Set<char> {
        members(self.set)
    }
}

impl LetterSet {
    /// No bit outside the alphabet is set.
    #[verifier::type_invariant]
    pub closed spec fn wf(self) -> bool {
        self.set < 0x400_0000
    }

    /// The mask of the set: bit `i` is set exactly when letter `i` of the
    /// alphabet is a member.
    pub(crate) fn bits(&self) -> (bits: u32)
        ensures
            members(bits) == self@,
    {
        self.set
    }

    /// Whether `c` is a member.
    pub fn contains(&self, c: char) -> (b: bool)
        ensures
            b == self@.contains(c),
    {
        if 'a' <= c && c <= 'z' {
            let i: u32 = c as u32 - 'a' as u32;
            self.set & (1u32 << i) != 0
        } else {
            false
        }
    }

    /// The set of the letters that occur in `letters`, which must all be
    /// lowercase letters.
    pub fn from_iter(letters: &[char]) -> (r: Self)
        requires
            forall|i: int| 0 <= i < letters@.len() ==> is_letter(#[trigger] letters@[i]),
        ensures
            r@ == letters@.to_set(),
    {
        let mut bits: u32 = 0;
        let mut k: usize = 0;
        assert(forall|i: u32| !has_bit(0u32, i)) by (bit_vector);
        while k < letters.len()
            invariant
                k <= letters@.len(),
                bits < 0x400_0000,
                forall|i: int| 0 <= i < letters@.len() ==> is_letter(#[trigger] letters@[i]),
                forall|i: u32|
                    i < 26 ==> (has_bit(bits, i) <==> exists|j: int|
                        0 <= j < k && letter_index(#[trigger] letters@[j]) == i),
            decreases letters@.len() - k,
        {
            let c = letters[k];
            let i: u32 = c as u32 - 'a' as u32;
            let ghost before = bits;
            bits = bits | (1u32 << i);
            proof {
                assert((before | (1u32 << i)) < 0x400_0000) by (bit_vector)
                    requires
                        before < 0x400_0000,
                        i < 26,
                ;
                assert forall|n: u32| n < 26 implies (has_bit(bits, n) <==> exists|j: int|
                    0 <= j < k + 1 && letter_index(#[trigger] letters@[j]) == n) by {
                    assert(has_bit(before | (1u32 << i), n) == (has_bit(before, n) || n == i))
                        by (bit_vector)
                        requires
                            n < 32,
                            i < 32,
                    ;
                    if n == i {
                        assert(letter_index(letters@[k as int]) == n);
                    }
                }
            }
            k += 1;
        }
        let r = LetterSet { set: bits };
        proof {
            assert forall|c: char| r@.contains(c) == letters@.to_set().contains(c) by {
                if letters@.contains(c) {
                    let j = choose|j: int| 0 <= j < letters@.len() && letters@[j] == c;
                    assert(letter_index(letters@[j]) == letter_index(c));
                }
                if r@.contains(c) {
                    let j = choose|j: int|
                        0 <= j < k && letter_index(#[trigger] letters@[j]) == letter_index(c);
                    assert(letters@[j] == c);
                }
            }
            assert(r@ =~= letters@.to_set());
        }
        r
    }

    /// Union of two letter sets.
    pub fn add(self, other: Self) -> (r: Self)
        ensures
            r@ == self@.union(other@),
    {
        proof {
            use_type_invariant(&self);
            use_type_invariant(&other);
        }
        let a: u32 = self.set;
        let b: u32 = other.set;
        assert((a | b) < 0x400_0000) by (bit_vector)
            requires
                a < 0x400_0000,
                b < 0x400_0000,
        ;
        let r = LetterSet { set: a | b };
        proof {
            assert forall|c: char| r@.contains(c) == self@.union(other@).contains(c) by {
                let i = letter_index(c);
                if is_letter(c) {
                    assert(has_bit(a | b, i) == (has_bit(a, i) || has_bit(b, i))) by (bit_vector)
                        requires
                            i < 32,
                    ;
                }
            }
            assert(r@ =~= self@.union(other@));
        }
        r
    }
}

impl Default for LetterSet {
    /// The empty set.
    fn default() -> (r: Self)
        ensures
            r@ == Set::<char>::empty(),
    {
        let r = LetterSet { set: 0 };
        proof {
            assert forall|c: char| !r@.contains(c) by {
                let i = letter_index(c);
                assert(!has_bit(0u32, i)) by (bit_vector);
            }
            assert(r@ =~= Set::<char>::empty());
        }
        r
    }
}

/// Two masks below the alphabet's top that agree on every bit from `n` up
/// agree after a shift by `n`.
proof fn lemma_shifted_masks_agree(a: u32, b: u32, n: u32)
    requires
        a < 0x400_0000,
        b < 0x400_0000,
        n <= 26,
        forall|i: u32| n <= i < 26 ==> has_bit(a, i) == has_bit(b, i),
    ensures
        a >> n == b >> n,
    decreases 26 - n,
{
    if n == 26 {
        assert(a >> 26u32 == 0u32) by (bit_vector)
            requires
                a < 0x400_0000,
        ;
        assert(b >> 26u32 == 0u32) by (bit_vector)
            requires
                b < 0x400_0000,
        ;
    } else {
        let m = (n + 1) as u32;
        lemma_shifted_masks_agree(a, b, m);
        assert(has_bit(a, n) == has_bit(b, n));
        assert(a >> n == b >> n) by (bit_vector)
            requires
                a >> m == b >> m,
                m == n + 1,
                n < 26,
                (a & (1u32 << n) != 0) == (b & (1u32 << n) != 0),
        ;
    }
}

/// Equality of letter sets is structural: two well-formed sets with the same
/// members are the same value.
pub proof fn lemma_same_members_same_set(a: LetterSet, b: LetterSet)
    requires
        a.wf(),
        b.wf(),
        a@ == b@,
    ensures
        a == b,
{
    assert forall|i: u32| i < 26 implies has_bit(a.set, i) == has_bit(b.set, i) by {
        let c = (i + 'a' as u32) as char;
        assert(is_letter(c));
        assert(letter_index(c) == i);
        assert(a@.contains(c) == has_bit(a.set, i));
        assert(b@.contains(c) == has_bit(b.set, i));
    }
    let x = a.set;
    let y = b.set;
    lemma_shifted_masks_agree(x, y, 0);
    assert(x >> 0u32 == x) by (bit_vector);
    assert(y >> 0u32 == y) by (bit_vector);
}

} // verus!
