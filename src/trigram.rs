//! Trigram shingles of a text, the keys of the inverted index.
use vstd::prelude::*;
use vstd::relations::{sorted_by, total_ordering};
use vstd::seq_lib::lemma_sorted_unique;
use crate::chars::{alphanumeric, chars_of, is_alnum, lower_of, lowercase};

verus! {

broadcast use vstd::seq_lib::group_to_multiset_ensures;

/// At most this many lowercased chars of a text are read for trigrams.
pub const TRIGRAM_SCAN_LIMIT: usize = 10_000;

/// The text with every char replaced by its lowercase mapping.
pub open spec fn lowered(s: Seq<char>) -> Seq<char>
    decreases s.len(),
{
    if s.len() == 0 {
        Seq::empty()
    } else {
        lowered(s.drop_last()) + lower_of(s.last())
    }
}

/// The trigrams of `cs`: every window of three consecutive alphanumeric
/// chars, in order of their positions.
pub open spec fn trigrams(cs: Seq<char>) -> Seq<[char; 3]>
    decreases cs.len(),
{
    if cs.len() < 3 {
        Seq::empty()
    } else {
        let n = cs.len() as int;
        trigrams(cs.drop_last()) + if is_alnum(cs[n - 3]) && is_alnum(cs[n - 2]) && is_alnum(
            cs[n - 1],
        ) {
            seq![[cs[n - 3], cs[n - 2], cs[n - 1]]]
        } else {
            Seq::empty()
        }
    }
}

/// The chars of `s` that `tokenize` reads: the lowercased text, cut after
/// `TRIGRAM_SCAN_LIMIT` chars.
pub open spec fn scanned(s: Seq<char>) -> Seq<char> {
    let l = lowered(s);
    if l.len() <= TRIGRAM_SCAN_LIMIT {
        l
    } else {
        l.take(TRIGRAM_SCAN_LIMIT as int)
    }
}

/// What `tokenize` returns for text `s`.
pub open spec fn text_trigrams(s: Seq<char>) -> Seq<[char; 3]> {
    trigrams(scanned(s))
}

/// Length of the run of alphanumeric chars at the end of `cs`.
pub open spec fn trailing_run(cs: Seq<char>) -> nat
    decreases cs.len(),
{
    if cs.len() == 0 || !is_alnum(cs.last()) {
        0
    } else {
        1 + trailing_run(cs.drop_last())
    }
}

proof fn lemma_trailing_run(cs: Seq<char>)
    ensures
        trailing_run(cs) <= cs.len(),
        trailing_run(cs) >= 2 <==> (cs.len() >= 2 && is_alnum(cs[cs.len() - 1]) && is_alnum(
            cs[cs.len() - 2],
        )),
    decreases cs.len(),
{
    if cs.len() > 0 {
        lemma_trailing_run(cs.drop_last());
        if cs.len() >= 2 {
            assert(cs.drop_last().last() == cs[cs.len() - 2]);
        }
    }
}

/// Appending `c` to the scanned text extends its trigrams by at most one.
proof fn lemma_trigrams_push(cs: Seq<char>, c: char)
    ensures
        trigrams(cs.push(c)) == trigrams(cs) + if cs.len() >= 2 && is_alnum(cs[cs.len() - 2])
            && is_alnum(cs[cs.len() - 1]) && is_alnum(c) {
            seq![[cs[cs.len() - 2], cs[cs.len() - 1], c]]
        } else {
            Seq::<[char; 3]>::empty()
        },
{
    assert(cs.push(c).drop_last() =~= cs);
    if cs.len() < 2 {
        assert(trigrams(cs) =~= Seq::<[char; 3]>::empty());
        assert(trigrams(cs.push(c)) =~= Seq::<[char; 3]>::empty());
    }
}

/// Overlapping trigrams of consecutive alphanumeric chars of the lowercased
/// text, in order of position and with repeats; any other char ends a word,
/// and only the first `TRIGRAM_SCAN_LIMIT` lowercased chars are read.
pub fn tokenize(text: &str) -> (r: Vec<[char; 3]>)
    ensures
        r@ == text_trigrams(text@),
{
    let src = chars_of(text);
    let ghost l = lowered(text@);
    let mut out: Vec<[char; 3]> = Vec::new();
    let mut w0: char = '\0';
    let mut w1: char = '\0';
    let mut w2: char = '\0';
    let mut run: usize = 0;
    let mut processed: usize = 0;
    let mut i: usize = 0;
    let mut done = false;
    let ghost mut seen: Seq<char> = Seq::empty();
    while i < src.len() && !done
        invariant
            i <= src@.len(),
            src@ == text@,
            l == lowered(text@),
            processed == seen.len(),
            processed <= TRIGRAM_SCAN_LIMIT,
            !done ==> seen == lowered(src@.take(i as int)),
            done ==> seen == l.take(TRIGRAM_SCAN_LIMIT as int) && l.len() > TRIGRAM_SCAN_LIMIT,
            done ==> processed == TRIGRAM_SCAN_LIMIT,
            out@ == trigrams(seen),
            run == trailing_run(seen),
            run >= 1 ==> w2 == seen[seen.len() - 1],
            run >= 2 ==> w1 == seen[seen.len() - 2],
            run >= 3 ==> w0 == seen[seen.len() - 3],
        decreases src@.len() - i + (if done { 0int } else { 1int }),
    {
        let ghost before = seen;
        let lw = lowercase(src[i]);
        let mut q: usize = 0;
        proof {
            assert(src@.take((i + 1) as int).drop_last() =~= src@.take(i as int));
            assert(lowered(src@.take((i + 1) as int)) == before + lw@);
            lemma_lowered_prefix(src@, (i + 1) as nat);
        }
        while q < lw.len() && !done
            invariant
                q <= lw@.len(),
                lw@ == lower_of(src@[i as int]),
                i < src@.len(),
                src@ == text@,
                l == lowered(text@),
                lowered(src@.take((i + 1) as int)) == before + lw@,
                before + lw@ == l.take((before + lw@).len() as int),
                processed == seen.len(),
                processed <= TRIGRAM_SCAN_LIMIT,
                !done ==> seen == before + lw@.take(q as int),
                done ==> seen == l.take(TRIGRAM_SCAN_LIMIT as int) && l.len()
                    > TRIGRAM_SCAN_LIMIT,
                done ==> processed == TRIGRAM_SCAN_LIMIT,
                out@ == trigrams(seen),
                run == trailing_run(seen),
                run >= 1 ==> w2 == seen[seen.len() - 1],
                run >= 2 ==> w1 == seen[seen.len() - 2],
                run >= 3 ==> w0 == seen[seen.len() - 3],
            decreases lw@.len() - q + (if done { 0int } else { 1int }),
        {
            if processed >= TRIGRAM_SCAN_LIMIT {
                proof {
                    lemma_lowered_len_bound(src@, (i + 1) as nat);
                    assert(seen.len() == TRIGRAM_SCAN_LIMIT);
                    assert(seen =~= l.take(TRIGRAM_SCAN_LIMIT as int));
                }
                done = true;
            } else {
                let c = lw[q];
                proof {
                    lemma_trigrams_push(seen, c);
                    lemma_trailing_run(seen);
                    assert(seen.push(c).drop_last() =~= seen);
                    assert(before + lw@.take((q + 1) as int) =~= seen.push(c));
                    seen = seen.push(c);
                }
                processed = processed + 1;
                if alphanumeric(c) {
                    w0 = w1;
                    w1 = w2;
                    w2 = c;
                    run = run + 1;
                    if run >= 3 {
                        out.push([w0, w1, w2]);
                    }
                } else {
                    run = 0;
                }
                q = q + 1;
            }
        }
        if !done {
            assert(lw@.take(lw@.len() as int) =~= lw@);
        }
        i = i + 1;
    }
    proof {
        if !done {
            assert(src@.take(src@.len() as int) =~= src@);
            assert(seen == l);
        }
    }
    out
}

/// Lexicographic order of trigrams by code point.
pub open spec fn tri_le(a: [char; 3], b: [char; 3]) -> bool {
    (a[0] as int) < (b[0] as int) || (a[0] == b[0] && ((a[1] as int) < (b[1] as int) || (a[1]
        == b[1] && (a[2] as int) <= (b[2] as int))))
}

/// `s` with each run of equal neighbours kept once.
pub open spec fn dedup_adjacent(s: Seq<[char; 3]>) -> Seq<[char; 3]>
    decreases s.len(),
{
    if s.len() <= 1 {
        s
    } else {
        let d = dedup_adjacent(s.drop_last());
        if s.last() == s[s.len() - 2] {
            d
        } else {
            d.push(s.last())
        }
    }
}

/// The distinct trigrams of `s`, in ascending order.
pub open spec fn distinct_sorted(s: Seq<[char; 3]>) -> Seq<[char; 3]> {
    dedup_adjacent(s.sort_by(|a: [char; 3], b: [char; 3]| tri_le(a, b)))
}

/// `tri_le` is a total order.
pub proof fn lemma_tri_le_total()
    ensures
        total_ordering(|a: [char; 3], b: [char; 3]| tri_le(a, b)),
{
    assert forall|a: [char; 3], b: [char; 3]| #[trigger] tri_le(a, b) && #[trigger] tri_le(
        b,
        a,
    ) implies a == b by {
        assert(a@ =~= b@);
        assert(a =~= b);
    }
}

proof fn lemma_dedup_last(s: Seq<[char; 3]>)
    requires
        s.len() >= 1,
    ensures
        dedup_adjacent(s).len() >= 1,
        dedup_adjacent(s).last() == s.last(),
    decreases s.len(),
{
    if s.len() > 1 {
        lemma_dedup_last(s.drop_last());
    }
}

/// Compares two trigrams in `tri_le` order.
fn trigram_le(a: [char; 3], b: [char; 3]) -> (r: bool)
    ensures
        r == tri_le(a, b),
{
    a[0] < b[0] || (a[0] == b[0] && (a[1] < b[1] || (a[1] == b[1] && a[2] <= b[2])))
}

/// Whether two trigrams are equal.
pub fn same_trigram(a: [char; 3], b: [char; 3]) -> (r: bool)
    ensures
        r == (a == b),
{
    let r = a[0] == b[0] && a[1] == b[1] && a[2] == b[2];
    proof {
        if r {
            assert(a =~= b);
        }
    }
    r
}

/// The distinct trigrams of `v` in ascending order.
pub fn sort_dedup_trigrams(v: &Vec<[char; 3]>) -> (r: Vec<[char; 3]>)
    ensures
        r@ == distinct_sorted(v@),
{
    let ghost leq = |a: [char; 3], b: [char; 3]| tri_le(a, b);
    proof {
        lemma_tri_le_total();
    }
    let mut out: Vec<[char; 3]> = Vec::new();
    let mut q: usize = 0;
    assert(v@.take(0) =~= Seq::<[char; 3]>::empty());
    while q < v.len()
        invariant
            q <= v@.len(),
            total_ordering(leq),
            leq == (|a: [char; 3], b: [char; 3]| tri_le(a, b)),
            sorted_by(out@, leq),
            out@.to_multiset() == v@.take(q as int).to_multiset(),
        decreases v@.len() - q,
    {
        let x = v[q];
        let ghost ws = out@;
        let mut p: usize = 0;
        let mut go = true;
        while go && p < out.len()
            invariant
                p <= out@.len(),
                ws == out@,
                forall|j: int| 0 <= j < p ==> tri_le(#[trigger] ws[j], x),
                !go ==> p < out@.len() && !tri_le(ws[p as int], x),
            decreases out@.len() - p + (if go { 1int } else { 0int }),
        {
            if trigram_le(out[p], x) {
                p = p + 1;
            } else {
                go = false;
            }
        }
        proof {
            let ws2 = ws.insert(p as int, x);
            assert forall|i: int, j: int| 0 <= i < j < ws2.len() implies #[trigger] leq(
                ws2[i],
                ws2[j],
            ) by {
                if j < p {
                    assert(leq(ws[i], ws[j]));
                } else if i < p && j == p {
                } else if i < p {
                    assert(leq(ws[i], ws[j - 1]));
                } else if i == p {
                    if j - 1 > p {
                        assert(leq(ws[p as int], ws[j - 1]));
                    }
                } else {
                    assert(leq(ws[i - 1], ws[j - 1]));
                }
            }
            assert(v@.take((q + 1) as int) =~= v@.take(q as int).push(x));
        }
        out.insert(p, x);
        q = q + 1;
    }
    proof {
        assert(v@.take(v@.len() as int) =~= v@);
        v@.lemma_sort_by_ensures(leq);
        lemma_sorted_unique(out@, v@.sort_by(leq), leq);
    }
    let mut r: Vec<[char; 3]> = Vec::new();
    let mut i: usize = 0;
    assert(out@.take(0) =~= Seq::<[char; 3]>::empty());
    while i < out.len()
        invariant
            i <= out@.len(),
            r@ == dedup_adjacent(out@.take(i as int)),
        decreases out@.len() - i,
    {
        let x = out[i];
        proof {
            assert(out@.take((i + 1) as int).drop_last() =~= out@.take(i as int));
            if i >= 1 {
                lemma_dedup_last(out@.take(i as int));
            }
        }
        if i == 0 {
            r.push(x);
            assert(r@ =~= out@.take(1));
        } else if !same_trigram(out[i - 1], x) {
            r.push(x);
        }
        i = i + 1;
    }
    assert(out@.take(out@.len() as int) =~= out@);
    r
}

proof fn lemma_dedup_members(s: Seq<[char; 3]>)
    ensures
        forall|x: [char; 3]| dedup_adjacent(s).contains(x) <==> s.contains(x),
    decreases s.len(),
{
    if s.len() > 1 {
        let u = s.drop_last();
        let d = dedup_adjacent(u);
        let l = s.last();
        lemma_dedup_members(u);
        assert forall|x: [char; 3]| dedup_adjacent(s).contains(x) <==> s.contains(x) by {
            if s.contains(x) {
                let i = choose|i: int| 0 <= i < s.len() && s[i] == x;
                if i < s.len() - 1 || l == s[s.len() - 2] {
                    let i2 = if i < s.len() - 1 { i } else { s.len() - 2 };
                    assert(u[i2] == x);
                    assert(u.contains(x));
                    assert(d.contains(x));
                    let j = choose|j: int| 0 <= j < d.len() && d[j] == x;
                    assert(d.push(l)[j] == x);
                } else {
                    assert(d.push(l)[d.len() as int] == x);
                }
            }
            if dedup_adjacent(s).contains(x) {
                let j = choose|j: int|
                    0 <= j < dedup_adjacent(s).len() && dedup_adjacent(s)[j] == x;
                if j < d.len() {
                    assert(d[j] == x);
                    assert(u.contains(x));
                    let i = choose|i: int| 0 <= i < u.len() && u[i] == x;
                    assert(s[i] == x);
                } else {
                    assert(s[s.len() - 1] == x);
                }
            }
        }
    }
}

/// The distinct trigrams of `s` are those of `s`, each listed once.
pub proof fn lemma_distinct_sorted(s: Seq<[char; 3]>)
    ensures
        distinct_sorted(s).no_duplicates(),
        forall|x: [char; 3]| distinct_sorted(s).contains(x) <==> s.contains(x),
{
    let leq = |a: [char; 3], b: [char; 3]| tri_le(a, b);
    lemma_tri_le_total();
    s.lemma_sort_by_ensures(leq);
    let t = s.sort_by(leq);
    lemma_dedup_members(t);
    assert forall|x: [char; 3]| t.contains(x) <==> s.contains(x) by {
        assert(t.to_multiset().count(x) == s.to_multiset().count(x));
    }
    lemma_dedup_distinct(t);
}

proof fn lemma_dedup_distinct(t: Seq<[char; 3]>)
    requires
        sorted_by(t, |a: [char; 3], b: [char; 3]| tri_le(a, b)),
    ensures
        dedup_adjacent(t).no_duplicates(),
    decreases t.len(),
{
    let leq = |a: [char; 3], b: [char; 3]| tri_le(a, b);
    lemma_tri_le_total();
    if t.len() > 1 {
        let u = t.drop_last();
        assert(sorted_by(u, leq));
        lemma_dedup_distinct(u);
        lemma_dedup_members(u);
        let d = dedup_adjacent(u);
        if t.last() != t[t.len() - 2] {
            assert(!d.contains(t.last())) by {
                if d.contains(t.last()) {
                    assert(u.contains(t.last()));
                    let i = choose|i: int| 0 <= i < u.len() && u[i] == t.last();
                    assert(leq(t[i], t[t.len() - 2]) || i == t.len() - 2);
                    assert(leq(t[t.len() - 2], t[t.len() - 1]));
                    assert(t[t.len() - 2] =~= t[t.len() - 1]);
                }
            }
            assert forall|i: int, j: int| 0 <= i < j < d.push(t.last()).len() implies d.push(
                t.last(),
            )[i] != d.push(t.last())[j] by {
                if j == d.len() {
                    assert(d.contains(d[i]));
                }
            }
        }
    }
}

proof fn lemma_lowered_prefix(s: Seq<char>, i: nat)
    requires
        i <= s.len(),
    ensures
        lowered(s.take(i as int)) == lowered(s).take(lowered(s.take(i as int)).len() as int),
    decreases s.len(),
{
    if i < s.len() {
        assert(s.drop_last().take(i as int) =~= s.take(i as int));
        lemma_lowered_prefix(s.drop_last(), i);
        lemma_lowered_len_bound(s.drop_last(), i);
        assert(s.drop_last().take(s.drop_last().len() as int) =~= s.drop_last());
        assert(lowered(s) == lowered(s.drop_last()) + lower_of(s.last()));
        assert(lowered(s).take(lowered(s.take(i as int)).len() as int) =~= lowered(
            s.drop_last(),
        ).take(lowered(s.take(i as int)).len() as int));
    } else {
        assert(s.take(i as int) =~= s);
    }
}

proof fn lemma_lowered_len_bound(s: Seq<char>, i: nat)
    requires
        i <= s.len(),
    ensures
        lowered(s.take(i as int)).len() <= lowered(s).len(),
    decreases s.len(),
{
    if i < s.len() {
        assert(s.drop_last().take(i as int) =~= s.take(i as int));
        lemma_lowered_len_bound(s.drop_last(), i);
    } else {
        assert(s.take(i as int) =~= s);
    }
}

} // verus!
