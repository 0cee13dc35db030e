//! Bounded edit distance (Ukkonen banding) and the reusable work buffers.
use vstd::prelude::*;
pub use crate::normalize::normalize;

verus! {

/// Smaller of two naturals.
pub open spec fn min_nat(x: nat, y: nat) -> nat {
    if x <= y { x } else { y }
}

/// Levenshtein distance between the prefix of length `i` of `a` and the
/// prefix of length `j` of `b` (unit cost insertion, deletion, substitution).
pub open spec fn lev(a: Seq<char>, b: Seq<char>, i: nat, j: nat) -> nat
    decreases i + j,
{
    if i == 0 {
        j
    } else if j == 0 {
        i
    } else {
        let cost: nat = if a[i - 1] == b[j - 1] { 0 } else { 1 };
        min_nat(
            min_nat(lev(a, b, (i - 1) as nat, j) + 1, lev(a, b, i, (j - 1) as nat) + 1),
            lev(a, b, (i - 1) as nat, (j - 1) as nat) + cost,
        )
    }
}

/// Levenshtein distance between two whole sequences.
pub open spec fn edit_distance(a: Seq<char>, b: Seq<char>) -> nat {
    lev(a, b, a.len(), b.len())
}

/// The edit distance when it is at most `k`, else the sentinel `k + 1`.
pub open spec fn bounded_distance(a: Seq<char>, b: Seq<char>, k: nat) -> nat {
    min_nat(edit_distance(a, b), k + 1)
}

/// No alignment of two prefixes costs less than their length gap.
pub proof fn lemma_lev_at_least_gap(a: Seq<char>, b: Seq<char>, i: nat, j: nat)
    ensures
        lev(a, b, i, j) >= i - j,
        lev(a, b, i, j) >= j - i,
    decreases i + j,
{
    if i > 0 && j > 0 {
        lemma_lev_at_least_gap(a, b, (i - 1) as nat, j);
        lemma_lev_at_least_gap(a, b, i, (j - 1) as nat);
        lemma_lev_at_least_gap(a, b, (i - 1) as nat, (j - 1) as nat);
    }
}

/// The distance does not depend on which sequence is listed first.
pub proof fn lemma_lev_symmetric(a: Seq<char>, b: Seq<char>, i: nat, j: nat)
    ensures
        lev(a, b, i, j) == lev(b, a, j, i),
    decreases i + j,
{
    if i > 0 && j > 0 {
        lemma_lev_symmetric(a, b, (i - 1) as nat, j);
        lemma_lev_symmetric(a, b, i, (j - 1) as nat);
        lemma_lev_symmetric(a, b, (i - 1) as nat, (j - 1) as nat);
    }
}

/// A prefix is at distance zero from itself.
pub proof fn lemma_lev_same_prefix(a: Seq<char>, i: nat)
    ensures
        lev(a, a, i, i) == 0,
    decreases i,
{
    if i > 0 {
        lemma_lev_same_prefix(a, (i - 1) as nat);
    }
}

/// Once every cell of row `i` exceeds `k`, every later row does too: an
/// alignment must cross row `i` to reach a later one.
pub proof fn lemma_row_barrier(a: Seq<char>, b: Seq<char>, k: nat, i: nat, i2: nat, j2: nat)
    requires
        i <= i2,
        j2 <= b.len(),
        forall|j: nat| j <= b.len() ==> #[trigger] lev(a, b, i, j) > k,
    ensures
        lev(a, b, i2, j2) > k,
    decreases i2, j2,
{
    if i2 == i {
    } else if j2 == 0 {
        assert(lev(a, b, i, 0) > k);
    } else {
        lemma_row_barrier(a, b, k, i, (i2 - 1) as nat, j2);
        lemma_row_barrier(a, b, k, i, i2, (j2 - 1) as nat);
        lemma_row_barrier(a, b, k, i, (i2 - 1) as nat, (j2 - 1) as nat);
    }
}

/// Scratch memory reused across normalizations and distance computations,
/// so that a batch of calls does not allocate per call. One caller at a time.
#[derive(Clone)]
pub struct DistanceBuffers {
    pub cleaned_a: String,
    pub sorted_a: String,
    pub cleaned_b: String,
    pub sorted_b: String,
    pub ranges: Vec<(usize, usize)>,
    pub char_a: Vec<char>,
    pub char_b: Vec<char>,
    pub cache: Vec<usize>,
}

/// Relies on String::with_capacity: the new string is empty.
#[verifier::external_body]
fn string_with_capacity(capacity: usize) -> (r: String)
    ensures
        r@ == Seq::<char>::empty(),
{
    String::with_capacity(capacity)
}

impl DistanceBuffers {
    /// Every buffer starts empty.
    pub open spec fn all_empty(&self) -> bool {
        &&& self.cleaned_a@.len() == 0
        &&& self.sorted_a@.len() == 0
        &&& self.cleaned_b@.len() == 0
        &&& self.sorted_b@.len() == 0
        &&& self.ranges@.len() == 0
        &&& self.char_a@.len() == 0
        &&& self.char_b@.len() == 0
        &&& self.cache@.len() == 0
    }

    /// Fresh buffers with room reserved for typical records.
    pub fn new() -> (r: Self)
        ensures
            r.all_empty(),
    {
        DistanceBuffers {
            cleaned_a: string_with_capacity(256),
            cleaned_b: string_with_capacity(256),
            sorted_a: string_with_capacity(256),
            sorted_b: string_with_capacity(256),
            char_a: Vec::with_capacity(256),
            char_b: Vec::with_capacity(256),
            cache: Vec::with_capacity(256),
            ranges: Vec::with_capacity(32),
        }
    }
}

impl Default for DistanceBuffers {
    fn default() -> (r: Self)
        ensures
            r.all_empty(),
    {
        Self::new()
    }
}

/// `x` capped at `cap`.
pub open spec fn capped(x: nat, cap: nat) -> nat {
    min_nat(x, cap)
}

/// The first cell of row `row` that the band of half-width `k` reaches, less one.
pub open spec fn band_lo(row: nat, k: nat) -> nat {
    if row > k + 1 { (row - k - 1) as nat } else { 0 }
}

/// Bounded Levenshtein distance between `a` and `b`: the true distance when
/// it is at most `max_distance`, else `max_distance + 1`. Only the diagonal
/// band of half-width `max_distance` is filled, one row at a time in
/// `bufs.cache`, and the computation stops as soon as a whole row exceeds
/// the bound.
pub fn levenshtein_distance_raw(
    a: &[char],
    b: &[char],
    max_distance: usize,
    bufs: &mut DistanceBuffers,
) -> (r: usize)
    requires
        max_distance < usize::MAX,
    ensures
        r == bounded_distance(a@, b@, max_distance as nat),
        final(bufs).cleaned_a == old(bufs).cleaned_a,
        final(bufs).sorted_a == old(bufs).sorted_a,
        final(bufs).cleaned_b == old(bufs).cleaned_b,
        final(bufs).sorted_b == old(bufs).sorted_b,
        final(bufs).ranges == old(bufs).ranges,
        final(bufs).char_a == old(bufs).char_a,
        final(bufs).char_b == old(bufs).char_b,
        (a@.len() == 0 || b@.len() == 0 || a@.len() - b@.len() > max_distance || b@.len()
            - a@.len() > max_distance) ==> *final(bufs) == *old(bufs),
{
    let a_len = a.len();
    let b_len = b.len();
    let k = max_distance;
    let ghost kn = k as nat;
    proof {
        lemma_lev_at_least_gap(a@, b@, a_len as nat, b_len as nat);
    }
    let gap = if a_len > b_len { a_len - b_len } else { b_len - a_len };
    if gap > k {
        return k + 1;
    }
    if a_len == 0 {
        return b_len;
    }
    if b_len == 0 {
        return a_len;
    }
    let (target, source) = if a_len > b_len { (b, a) } else { (a, b) };
    proof {
        lemma_lev_symmetric(a@, b@, a_len as nat, b_len as nat);
    }
    let ghost t = target@;
    let ghost s = source@;
    assert(edit_distance(s, t) == edit_distance(a@, b@));
    let m = target.len();
    let n = source.len();
    assert(m <= n && n - m <= k);
    let max_val = k + 1;
    let ghost cap = max_val as nat;

    bufs.cache.clear();
    let mut x: usize = 0;
    while x < m
        invariant
            x <= m,
            bufs.cache@.len() == x,
            max_val == k + 1,
            forall|c: int| 0 <= c < x ==> bufs.cache@[c] == capped(c as nat, max_val as nat),
            bufs.cleaned_a == old(bufs).cleaned_a,
            bufs.sorted_a == old(bufs).sorted_a,
            bufs.cleaned_b == old(bufs).cleaned_b,
            bufs.sorted_b == old(bufs).sorted_b,
            bufs.ranges == old(bufs).ranges,
            bufs.char_a == old(bufs).char_a,
            bufs.char_b == old(bufs).char_b,
        decreases m - x,
    {
        let v = if x < max_val { x } else { max_val };
        bufs.cache.push(v);
        x = x + 1;
    }
    let v = if m < max_val { m } else { max_val };
    bufs.cache.push(v);
    assert forall|c: int| 0 <= c <= m implies bufs.cache@[c] == capped(lev(s, t, 0, c as nat), cap) by {}

    let mut i: usize = 0;
    while i < n
        invariant
            0 <= i <= n,
            m == t.len(),
            n == s.len(),
            1 <= m <= n,
            n - m <= k,
            k < usize::MAX,
            max_val == k + 1,
            cap == max_val,
            kn == k,
            k == max_distance,
            t == target@,
            s == source@,
            edit_distance(s, t) == edit_distance(a@, b@),
            !(a@.len() == 0 || b@.len() == 0 || a@.len() - b@.len() > max_distance || b@.len()
                - a@.len() > max_distance),
            bufs.cache@.len() == m + 1,
            forall|c: int| band_lo(i as nat, kn) <= c <= m
                ==> #[trigger] bufs.cache@[c] == capped(lev(s, t, i as nat, c as nat), cap),
            bufs.cleaned_a == old(bufs).cleaned_a,
            bufs.sorted_a == old(bufs).sorted_a,
            bufs.cleaned_b == old(bufs).cleaned_b,
            bufs.sorted_b == old(bufs).sorted_b,
            bufs.ranges == old(bufs).ranges,
            bufs.char_a == old(bufs).char_a,
            bufs.char_b == old(bufs).char_b,
        decreases n - i,
    {
        let s_char = source[i];
        let row = i + 1;
        let start = if row > k { row - k } else { 1 };
        let end = if k >= m { m } else if row >= m - k { m } else { row + k };
        assert(start - 1 >= band_lo(i as nat, kn));
        assert(start <= end) by {
            assert(row <= n);
        }

        let mut diagonal = bufs.cache[start - 1];
        proof {
            lemma_lev_at_least_gap(s, t, row as nat, (start - 1) as nat);
        }
        if start == 1 {
            bufs.cache.set(0, row);
        } else {
            bufs.cache.set(start - 1, max_val);
        }
        let ghost prev = bufs.cache@;
        let mut min_in_row = max_val;
        let mut j = start - 1;
        while j < end
            invariant
                start - 1 <= j <= end,
                1 <= start <= end <= m,
                start == (if row > k { row - k } else { 1 }),
                end as nat == min_nat(m as nat, (row + k) as nat),
                row == i + 1,
                i < n,
                s_char == s[i as int],
                m == t.len(),
                n == s.len(),
                k < usize::MAX,
                max_val == k + 1,
                cap == max_val,
                kn == k,
                k == max_distance,
                t == target@,
                s == source@,
                edit_distance(s, t) == edit_distance(a@, b@),
                !(a@.len() == 0 || b@.len() == 0 || a@.len() - b@.len() > max_distance || b@.len()
                    - a@.len() > max_distance),
                bufs.cache@.len() == m + 1,
                min_in_row <= max_val,
                diagonal == capped(lev(s, t, i as nat, j as nat), cap),
                forall|c: int| start - 1 <= c <= j
                    ==> #[trigger] bufs.cache@[c] == capped(lev(s, t, row as nat, c as nat), cap),
                forall|c: int| start <= c <= j ==> min_in_row <= #[trigger] bufs.cache@[c],
                forall|c: int| j < c <= m ==> #[trigger] bufs.cache@[c] == prev[c],
                forall|c: int| band_lo(i as nat, kn) <= c <= m && c != start - 1
                    ==> #[trigger] prev[c] == capped(lev(s, t, i as nat, c as nat), cap),
                bufs.cleaned_a == old(bufs).cleaned_a,
                bufs.sorted_a == old(bufs).sorted_a,
                bufs.cleaned_b == old(bufs).cleaned_b,
                bufs.sorted_b == old(bufs).sorted_b,
                bufs.ranges == old(bufs).ranges,
                bufs.char_a == old(bufs).char_a,
                bufs.char_b == old(bufs).char_b,
            decreases end - j,
        {
            let t_char = target[j];
            let up = bufs.cache[j + 1];
            let left = bufs.cache[j];
            let from_up = if up < max_val { up + 1 } else { max_val };
            let from_left = if left < max_val { left + 1 } else { max_val };
            let from_diag = if s_char == t_char {
                diagonal
            } else if diagonal < max_val {
                diagonal + 1
            } else {
                max_val
            };
            let mut res = if from_up < from_left { from_up } else { from_left };
            if from_diag < res {
                res = from_diag;
            }
            proof {
                assert(up == capped(lev(s, t, i as nat, (j + 1) as nat), cap));
                assert(left == capped(lev(s, t, row as nat, j as nat), cap));
                assert(t[j as int] == t_char);
                assert(lev(s, t, row as nat, (j + 1) as nat) == min_nat(
                    min_nat(
                        lev(s, t, i as nat, (j + 1) as nat) + 1,
                        lev(s, t, row as nat, j as nat) + 1,
                    ),
                    lev(s, t, i as nat, j as nat) + (if s_char == t_char { 0nat } else { 1nat }),
                ));
            }
            bufs.cache.set(j + 1, res);
            if res < min_in_row {
                min_in_row = res;
            }
            diagonal = up;
            j = j + 1;
        }

        if min_in_row > k {
            proof {
                assert(row > k) by {
                    if row <= k {
                        assert(bufs.cache@[1] == capped(lev(s, t, row as nat, 1), cap));
                        assert(lev(s, t, row as nat, 1) <= row);
                    }
                }
                assert forall|c: nat| c <= t.len() implies #[trigger] lev(s, t, row as nat, c) > kn by {
                    lemma_lev_at_least_gap(s, t, row as nat, c);
                    if start <= c <= end {
                        assert(bufs.cache@[c as int] == capped(lev(s, t, row as nat, c), cap));
                    }
                }
                lemma_row_barrier(s, t, kn, row as nat, n as nat, m as nat);
            }
            return max_val;
        }
        proof {
            assert forall|c: int| band_lo(row as nat, kn) <= c <= m
                implies #[trigger] bufs.cache@[c] == capped(lev(s, t, row as nat, c as nat), cap) by {
                if c > end {
                    lemma_lev_at_least_gap(s, t, row as nat, c as nat);
                    lemma_lev_at_least_gap(s, t, i as nat, c as nat);
                }
            }
        }
        i = i + 1;
    }
    if bufs.cache[m] <= k {
        bufs.cache[m]
    } else {
        max_val
    }
}

} // verus!
verus! {

/// A sequence is at bounded distance zero from itself, whatever the bound.
pub proof fn lemma_distance_reflexive(x: Seq<char>, k: nat)
    ensures
        bounded_distance(x, x, k) == 0,
{
    lemma_lev_same_prefix(x, x.len());
}

} // verus!
