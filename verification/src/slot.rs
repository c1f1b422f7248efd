use vstd::prelude::*;

verus! {

/// The full lowercase alphabet, the permitted set of a freshly created slot.
pub open spec fn full_alphabet() -> Set<char> {
    Set::new(|c: char| 'a' <= c && c <= 'z')
}

/// The set of characters still permitted at one fixed position of the word.
///
/// A fresh slot permits every lowercase letter; feedback only narrows it,
/// either by removing single characters or by restricting it to a single one.
pub struct Slot {
    valid: Vec<char>,
}

impl View for Slot {
    type V = Set<char>;

    closed spec fn view(&self) -> Set<char> {
        self.valid@.to_set()
    }
}

impl Slot {
    #[verifier::type_invariant]
    spec fn wf(self) -> bool {
        self.valid@.no_duplicates()
    }

    /// Creates a new slot that permits every lowercase letter.
    pub fn new() -> (s: Slot)
        ensures
            s@ == full_alphabet(),
    {
        let s = Slot::from_range('a', 'z');
        proof {
            assert(s@ =~= full_alphabet());
        }
        s
    }

    /// Creates a slot that permits exactly the letters from `lo` to `hi`.
    pub fn from_range(lo: char, hi: char) -> (s: Slot)
        requires
            'a' <= lo,
            lo <= hi,
            hi <= 'z',
        ensures
            s@ == Set::new(|c: char| lo <= c && c <= hi),
    {
        let lo8 = lo as u8;
        let hi8 = hi as u8;
        let mut v: Vec<char> = Vec::new();
        let mut b: u8 = lo8;
        while b <= hi8
            invariant
                lo8 == lo as u8,
                hi8 == hi as u8,
                'a' <= lo,
                lo <= hi,
                hi <= 'z',
                lo8 <= b,
                b <= hi8 + 1,
                v@.len() == b - lo8,
                forall|j: int| 0 <= j < v@.len() ==> #[trigger] v@[j] == ((lo8 + j) as u8) as char,
            decreases hi8 + 1 - b,
        {
            v.push(b as char);
            b = b + 1;
        }
        proof {
            assert(v@.no_duplicates()) by {
                assert forall|i: int, j: int|
                    0 <= i < v@.len() && 0 <= j < v@.len() && i != j implies v@[i] != v@[j] by {
                    assert(v@[i] as int == lo8 + i);
                    assert(v@[j] as int == lo8 + j);
                }
            }
            assert(v@.to_set() =~= Set::new(|c: char| lo <= c && c <= hi)) by {
                assert forall|c: char| lo <= c && c <= hi implies v@.contains(c) by {
                    let j = c as int - lo8;
                    assert(v@[j] == ((lo8 + j) as u8) as char);
                    assert(v@[j] == c);
                }
            }
        }
        Slot { valid: v }
    }

    /// Removes `c` from the permitted set; removing a character that is
    /// already absent changes nothing.
    pub fn remove(&mut self, c: &char)
        ensures
            final(self)@ == old(self)@.remove(*c),
    {
        proof {
            use_type_invariant(&*self);
        }
        let mut v: Vec<char> = Vec::new();
        core::mem::swap(&mut v, &mut self.valid);
        let ghost orig = v@;
        let n = v.len();
        let mut i: usize = 0;
        while i < n
            invariant
                v@ == orig,
                orig == old(self).valid@,
                n == orig.len(),
                i <= n,
                orig.no_duplicates(),
                forall|j: int| 0 <= j < i ==> orig[j] != *c,
            decreases n - i,
        {
            if v[i] == *c {
                v.swap_remove(i);
                proof {
                    lemma_swap_remove_set(orig, i as int);
                    assert(v@.to_set() =~= orig.to_set().remove(*c));
                }
                self.valid = v;
                return;
            }
            i += 1;
        }
        proof {
            assert(!orig.contains(*c));
            assert(orig.to_set() =~= orig.to_set().remove(*c));
        }
        self.valid = v;
    }

    /// Clears the permitted set and admits only `c`.
    pub fn restrict(&mut self, c: char)
        ensures
            final(self)@ == Set::empty().insert(c),
    {
        let mut v: Vec<char> = Vec::new();
        v.push(c);
        proof {
            assert(v@[0] == c);
            assert forall|x: char| #[trigger] v@.contains(x) implies x == c by {
                let j = choose|j: int| 0 <= j < v@.len() && v@[j] == x;
                assert(j == 0);
            }
            assert(v@.contains(c));
            assert(v@.to_set() =~= Set::empty().insert(c));
        }
        self.valid = v;
    }

    /// Reports whether `c` is still permitted in this slot.
    pub fn contains(&self, c: &char) -> (r: bool)
        ensures
            r == self@.contains(*c),
    {
        let n = self.valid.len();
        let mut i: usize = 0;
        while i < n
            invariant
                n == self.valid@.len(),
                i <= n,
                forall|j: int| 0 <= j < i ==> self.valid@[j] != *c,
            decreases n - i,
        {
            if self.valid[i] == *c {
                proof {
                    assert(self.valid@.contains(*c));
                }
                return true;
            }
            i += 1;
        }
        proof {
            assert(!self.valid@.contains(*c));
        }
        false
    }

    /// Returns a slot that permits exactly the same characters as this one.
    pub(crate) fn duplicate(&self) -> (s: Slot)
        ensures
            s@ == self@,
    {
        proof {
            use_type_invariant(self);
        }
        let v = self.valid.clone();
        proof {
            assert forall|i: int| 0 <= i < v@.len() implies v@[i] == self.valid@[i] by {
                assert(cloned::<char>(self.valid@[i], v@[i]));
            }
            assert(v@ =~= self.valid@);
        }
        Slot { valid: v }
    }
}

/// Swapping out the only occurrence of a character keeps every other
/// character and introduces no duplicate.
proof fn lemma_swap_remove_set(s: Seq<char>, i: int)
    requires
        s.no_duplicates(),
        0 <= i < s.len(),
    ensures
        s.update(i, s.last()).drop_last().no_duplicates(),
        forall|x: char|
            #[trigger] s.update(i, s.last()).drop_last().contains(x) <==> s.contains(x) && x != s[i],
{
    let t = s.update(i, s.last()).drop_last();
    let n = s.len() as int;
    assert forall|j: int, k: int| 0 <= j < t.len() && 0 <= k < t.len() && j != k implies t[j]
        != t[k] by {
        assert(t[j] == if j == i { s[n - 1] } else { s[j] });
        assert(t[k] == if k == i { s[n - 1] } else { s[k] });
    }
    assert forall|x: char| #[trigger] t.contains(x) implies s.contains(x) && x != s[i] by {
        let j = choose|j: int| 0 <= j < t.len() && t[j] == x;
        if j == i {
            assert(s[n - 1] == x);
            assert(i != n - 1);
        } else {
            assert(s[j] == x);
            assert(j != i);
        }
    }
    assert forall|x: char| s.contains(x) && x != s[i] implies #[trigger] t.contains(x) by {
        let j = choose|j: int| 0 <= j < s.len() && s[j] == x;
        if j == n - 1 {
            if i < n - 1 {
                assert(t[i] == x);
            } else {
                assert(s[i] == x);
            }
        } else {
            assert(t[j] == x);
        }
    }
}

/// Removing a character that a slot no longer permits is a no-op: an
/// already-satisfied Absent signal applied again leaves the slot unchanged.
pub proof fn lemma_remove_absent_noop(s: Set<char>, c: char)
    requires
        !s.contains(c),
    ensures
        s.remove(c) == s,
{
    assert(s.remove(c) =~= s);
}

/// Once a slot has been restricted to `c`, it permits `c` and nothing else,
/// and removing any character other than `c` cannot change it, so no removal
/// re-admits a different character.
pub proof fn lemma_restrict_irreversible(c: char, d: char)
    requires
        d != c,
    ensures
        forall|x: char| Set::empty().insert(c).contains(x) <==> x == c,
        Set::empty().insert(c).remove(d) == Set::empty().insert(c),
{
    assert(Set::empty().insert(c).remove(d) =~= Set::empty().insert(c));
}

} // verus!
