//! The set of digits marked on one cell.

use vstd::prelude::*;

verus! {

/// How many of the nine marks are set.
pub open spec fn count_marks(m: Seq<bool>) -> int {
    (if m[0] { 1int } else { 0 }) + (if m[1] { 1int } else { 0 }) + (if m[2] { 1int } else { 0 })
        + (if m[3] { 1int } else { 0 }) + (if m[4] { 1int } else { 0 }) + (if m[5] { 1int } else { 0 })
        + (if m[6] { 1int } else { 0 }) + (if m[7] { 1int } else { 0 }) + (if m[8] { 1int } else { 0 })
}

/// Whether `n` is the least digit whose mark is set.
pub open spec fn is_lowest_mark(m: Seq<bool>, n: int) -> bool {
    &&& 1 <= n <= 9
    &&& m[n - 1]
    &&& forall|k: int| 0 <= k < n - 1 ==> !#[trigger] m[k]
}

/// The least digit whose mark is set, if there is one.
pub open spec fn lowest_mark(m: Seq<bool>) -> Option<u8> {
    if exists|n: int| is_lowest_mark(m, n) {
        Some((choose|n: int| is_lowest_mark(m, n)) as u8)
    } else {
        None
    }
}

/// The digits whose mark is set among the first `k` marks, in ascending order.
pub open spec fn marked_digits(m: Seq<bool>, k: int) -> Seq<u8>
    decreases k,
{
    if k <= 0 {
        Seq::empty()
    } else if m[k - 1] {
        marked_digits(m, k - 1).push(k as u8)
    } else {
        marked_digits(m, k - 1)
    }
}

/// The marks with none set.
pub open spec fn no_marks() -> Seq<bool> {
    Seq::new(9, |k: int| false)
}

/// The marks of one cell of a board: for each digit from 1 to 9, whether it
/// is set. The mark of digit `n` is entry `n - 1` of the view.
#[derive(Clone, Copy, Debug, PartialEq, Eq)]
pub struct Annotations([bool; 9]);

impl View for Annotations {
    type V = Seq<bool>;

    closed spec fn view(&self) -> Seq<bool> {
        self.0@
    }
}

/// The view of a set of marks has nine entries.
pub broadcast proof fn annotations_len(a: Annotations)
    ensures
        #[trigger] a@.len() == 9,
{
}

impl Annotations {
    /// Creates marks with none set.
    pub fn new() -> (a: Annotations)
        ensures
            a@ == no_marks(),
    {
        let a = Annotations([false; 9]);
        assert(a@ =~= no_marks());
        a
    }

    /// Creates the marks that the array holds: entry `n - 1` for digit `n`.
    pub fn from_array(arr: [bool; 9]) -> (a: Annotations)
        ensures
            a@ == arr@,
    {
        Annotations(arr)
    }

    /// Clears every mark.
    pub fn clear(&mut self)
        ensures
            final(self)@ == no_marks(),
    {
        self.0 = [false; 9];
        assert(self@ =~= no_marks());
    }

    /// Returns how many marks are set.
    pub fn count(&self) -> (n: i32)
        ensures
            n == count_marks(self@),
            0 <= n <= 9,
    {
        let mut n: i32 = 0;
        if self.0[0] { n = n + 1; }
        if self.0[1] { n = n + 1; }
        if self.0[2] { n = n + 1; }
        if self.0[3] { n = n + 1; }
        if self.0[4] { n = n + 1; }
        if self.0[5] { n = n + 1; }
        if self.0[6] { n = n + 1; }
        if self.0[7] { n = n + 1; }
        if self.0[8] { n = n + 1; }
        n
    }

    /// Returns the digits whose mark is set, in ascending order.
    pub fn list(&self) -> (v: Vec<u8>)
        ensures
            v@ == marked_digits(self@, 9),
    {
        let mut v: Vec<u8> = Vec::new();
        let mut i: u8 = 0;
        while i < 9
            invariant
                i <= 9,
                v@ == marked_digits(self@, i as int),
            decreases 9 - i,
        {
            if self.0[i as usize] {
                v.push(i + 1);
            }
            i = i + 1;
        }
        v
    }

    /// Returns the least digit whose mark is set.
    pub fn lowest(&self) -> (r: Option<u8>)
        ensures
            r == lowest_mark(self@),
            match r {
                Some(n) => is_lowest_mark(self@, n as int),
                None => forall|k: int| 0 <= k < 9 ==> !self@[k],
            },
    {
        let mut i: u8 = 0;
        while i < 9
            invariant
                i <= 9,
                forall|k: int| 0 <= k < i ==> !self@[k],
            decreases 9 - i,
        {
            if self.0[i as usize] {
                proof {
                    lemma_lowest_unique(self@, i as int + 1);
                }
                return Some(i + 1);
            }
            i = i + 1;
        }
        assert forall|n: int| !is_lowest_mark(self@, n) by {
            if 1 <= n <= 9 {
                assert(!self@[n - 1]);
            }
        }
        None
    }

    /// Returns whether the mark of digit `n` is set.
    pub fn get(&self, n: u8) -> (b: bool)
        requires
            1 <= n <= 9,
        ensures
            b == self@[n - 1],
    {
        self.0[(n - 1) as usize]
    }

    /// Sets or clears the mark of digit `n`.
    pub fn set(&mut self, n: u8, value: bool)
        requires
            1 <= n <= 9,
        ensures
            final(self)@ == old(self)@.update(n - 1, value),
    {
        self.0[(n - 1) as usize] = value;
    }

    /// Flips the mark of digit `n`.
    pub fn toggle(&mut self, n: u8)
        requires
            1 <= n <= 9,
        ensures
            final(self)@ == old(self)@.update(n - 1, !old(self)@[n - 1]),
    {
        let b = self.0[(n - 1) as usize];
        self.0[(n - 1) as usize] = !b;
    }
}

impl Default for Annotations {
    fn default() -> (a: Annotations)
        ensures
            a@ == no_marks(),
    {
        Annotations::new()
    }
}

/// At most one digit is the least marked one, so it is the one that
/// `lowest_mark` names.
pub proof fn lemma_lowest_unique(m: Seq<bool>, n: int)
    requires
        is_lowest_mark(m, n),
    ensures
        lowest_mark(m) == Some(n as u8),
{
    let k = choose|k: int| is_lowest_mark(m, k);
    assert(is_lowest_mark(m, k));
    if k < n {
        assert(m[k - 1]);
    } else if n < k {
        assert(m[n - 1]);
    }
}

/// A digit is listed exactly when its mark is set.
pub proof fn lemma_marked_digits_contains(m: Seq<bool>, k: int, n: u8)
    requires
        0 <= k <= 9,
    ensures
        marked_digits(m, k).contains(n) <==> 1 <= n <= k && m[n - 1],
    decreases k,
{
    if k > 0 {
        lemma_marked_digits_contains(m, k - 1, n);
        let prev = marked_digits(m, k - 1);
        if m[k - 1] {
            let cur = prev.push(k as u8);
            if prev.contains(n) {
                let i = choose|i: int| 0 <= i < prev.len() && prev[i] == n;
                assert(cur[i] == n);
            }
            if n == k {
                assert(cur[prev.len() as int] == n);
            }
        }
    }
}

} // verus!
