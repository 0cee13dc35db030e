//! Order-insensitive canonical form of a text: punctuation stripped,
//! lowercased, words sorted and joined by single spaces.
use vstd::prelude::*;
use vstd::relations::{sorted_by, total_ordering};
use vstd::seq_lib::lemma_sorted_unique;
use crate::chars::{
    alphanumeric, byte_len, byte_offset, chars_of, clear_string, is_alnum, is_ws, lower_of,
    lowercase, push_char, utf8_width_of, whitespace, lemma_byte_offset_monotonic,
    lemma_byte_offset_strict,
};

verus! {

broadcast use vstd::seq_lib::group_to_multiset_ensures;

/// What one char of the input contributes to the cleaned text.
pub open spec fn clean_char(c: char) -> Seq<char> {
    if is_alnum(c) || is_ws(c) {
        lower_of(c)
    } else {
        Seq::empty()
    }
}

/// The input with every char that is neither alphanumeric nor whitespace
/// removed and the rest lowercased.
pub open spec fn cleaned(s: Seq<char>) -> Seq<char>
    decreases s.len(),
{
    if s.len() == 0 {
        Seq::empty()
    } else {
        cleaned(s.drop_last()) + clean_char(s.last())
    }
}

/// Length of the run of non-whitespace chars at the front of `c`.
pub open spec fn lead_run(c: Seq<char>) -> nat
    decreases c.len(),
{
    if c.len() == 0 || is_ws(c[0]) {
        0
    } else {
        1 + lead_run(c.drop_first())
    }
}

proof fn lemma_lead_run_bound(c: Seq<char>)
    ensures
        lead_run(c) <= c.len(),
        c.len() > 0 && !is_ws(c[0]) ==> lead_run(c) >= 1,
    decreases c.len(),
{
    if c.len() > 0 && !is_ws(c[0]) {
        lemma_lead_run_bound(c.drop_first());
    }
}

#[via_fn]
proof fn words_decreases(c: Seq<char>) {
    lemma_lead_run_bound(c);
}

/// The words of `c`: its maximal runs of non-whitespace chars, in order.
pub open spec fn words(c: Seq<char>) -> Seq<Seq<char>>
    decreases c.len(),
    via words_decreases
{
    if c.len() == 0 {
        Seq::empty()
    } else if is_ws(c[0]) {
        words(c.drop_first())
    } else {
        seq![c.take(lead_run(c) as int)] + words(c.skip(lead_run(c) as int))
    }
}

/// Lexicographic order of char sequences by code point, which is the byte
/// order of their UTF-8 encodings.
pub open spec fn lex_le(x: Seq<char>, y: Seq<char>) -> bool
    decreases x.len(),
{
    if x.len() == 0 {
        true
    } else if y.len() == 0 {
        false
    } else if x[0] == y[0] {
        lex_le(x.drop_first(), y.drop_first())
    } else {
        (x[0] as int) < (y[0] as int)
    }
}

/// Words joined by single spaces.
pub open spec fn join_words(ws: Seq<Seq<char>>) -> Seq<char>
    decreases ws.len(),
{
    if ws.len() == 0 {
        Seq::empty()
    } else if ws.len() == 1 {
        ws[0]
    } else {
        join_words(ws.drop_last()) + seq![' '] + ws.last()
    }
}

/// The words of the cleaned text in sorted order.
pub open spec fn sorted_words(s: Seq<char>) -> Seq<Seq<char>> {
    words(cleaned(s)).sort_by(|x: Seq<char>, y: Seq<char>| lex_le(x, y))
}

/// The canonical form of `s`.
pub open spec fn normalized(s: Seq<char>) -> Seq<char> {
    join_words(sorted_words(s))
}

proof fn lemma_lex_le_reflexive(x: Seq<char>)
    ensures
        lex_le(x, x),
    decreases x.len(),
{
    if x.len() > 0 {
        lemma_lex_le_reflexive(x.drop_first());
    }
}

proof fn lemma_lex_le_antisymmetric(x: Seq<char>, y: Seq<char>)
    requires
        lex_le(x, y),
        lex_le(y, x),
    ensures
        x == y,
    decreases x.len(),
{
    if x.len() > 0 && y.len() > 0 && x[0] == y[0] {
        lemma_lex_le_antisymmetric(x.drop_first(), y.drop_first());
        assert(x =~= seq![x[0]] + x.drop_first());
        assert(y =~= seq![y[0]] + y.drop_first());
    }
}

proof fn lemma_lex_le_transitive(x: Seq<char>, y: Seq<char>, z: Seq<char>)
    requires
        lex_le(x, y),
        lex_le(y, z),
    ensures
        lex_le(x, z),
    decreases x.len(),
{
    if x.len() > 0 && y.len() > 0 && z.len() > 0 && x[0] == y[0] && y[0] == z[0] {
        lemma_lex_le_transitive(x.drop_first(), y.drop_first(), z.drop_first());
    }
}

proof fn lemma_lex_le_connected(x: Seq<char>, y: Seq<char>)
    ensures
        lex_le(x, y) || lex_le(y, x),
    decreases x.len(),
{
    if x.len() > 0 && y.len() > 0 && x[0] == y[0] {
        lemma_lex_le_connected(x.drop_first(), y.drop_first());
    }
}

/// `lex_le` is a total order.
pub proof fn lemma_lex_le_total()
    ensures
        total_ordering(|x: Seq<char>, y: Seq<char>| lex_le(x, y)),
{
    assert forall|x: Seq<char>| #[trigger] lex_le(x, x) by {
        lemma_lex_le_reflexive(x);
    }
    assert forall|x: Seq<char>, y: Seq<char>| #[trigger]
        lex_le(x, y) && #[trigger] lex_le(y, x) implies x == y by {
        lemma_lex_le_antisymmetric(x, y);
    }
    assert forall|x: Seq<char>, y: Seq<char>, z: Seq<char>| #[trigger]
        lex_le(x, y) && #[trigger] lex_le(y, z) implies lex_le(x, z) by {
        lemma_lex_le_transitive(x, y, z);
    }
    assert forall|x: Seq<char>, y: Seq<char>| #[trigger] lex_le(x, y) || #[trigger] lex_le(y, x) by {
        lemma_lex_le_connected(x, y);
    }
}

/// Two texts whose cleaned forms hold the same words, counted with
/// multiplicity and in any order, have the same canonical form.
pub proof fn lemma_normalized_word_order_invariant(s1: Seq<char>, s2: Seq<char>)
    requires
        words(cleaned(s1)).to_multiset() == words(cleaned(s2)).to_multiset(),
    ensures
        normalized(s1) == normalized(s2),
{
    let leq = |x: Seq<char>, y: Seq<char>| lex_le(x, y);
    lemma_lex_le_total();
    words(cleaned(s1)).lemma_sort_by_ensures(leq);
    words(cleaned(s2)).lemma_sort_by_ensures(leq);
    lemma_sorted_unique(sorted_words(s1), sorted_words(s2), leq);
}

/// Every whitespace char of `t` is a single space with a non-whitespace
/// char on each side.
pub open spec fn single_spaced(t: Seq<char>) -> bool {
    forall|i: int|
        0 <= i < t.len() && is_ws(#[trigger] t[i]) ==> t[i] == ' ' && 0 < i < t.len() - 1 && !is_ws(
            t[i - 1],
        ) && !is_ws(t[i + 1])
}

/// A word: non-empty, without whitespace.
pub open spec fn is_word(w: Seq<char>) -> bool {
    w.len() > 0 && forall|j: int| 0 <= j < w.len() ==> !is_ws(#[trigger] w[j])
}

proof fn lemma_lead_run_chars(c: Seq<char>)
    ensures
        forall|j: int| 0 <= j < lead_run(c) ==> !is_ws(#[trigger] c[j]),
    decreases c.len(),
{
    if c.len() > 0 && !is_ws(c[0]) {
        lemma_lead_run_bound(c);
        lemma_lead_run_chars(c.drop_first());
        assert forall|j: int| 0 <= j < lead_run(c) implies !is_ws(#[trigger] c[j]) by {
            if j > 0 {
                assert(c[j] == c.drop_first()[j - 1]);
            }
        }
    }
}

proof fn lemma_words_are_words(c: Seq<char>)
    ensures
        forall|k: int| 0 <= k < words(c).len() ==> is_word(#[trigger] words(c)[k]),
    decreases c.len(),
{
    if c.len() > 0 {
        lemma_lead_run_bound(c);
        if is_ws(c[0]) {
            lemma_words_are_words(c.drop_first());
            assert(words(c) == words(c.drop_first()));
        } else {
            lemma_words_are_words(c.skip(lead_run(c) as int));
            lemma_lead_run_chars(c);
            let w = c.take(lead_run(c) as int);
            assert(is_word(w));
            let rest = words(c.skip(lead_run(c) as int));
            assert(words(c) == seq![w] + rest);
            assert forall|k: int| 0 <= k < words(c).len() implies is_word(#[trigger] words(c)[k]) by {
                if k == 0 {
                    assert(words(c)[0] == w);
                } else {
                    assert(words(c)[k] == rest[k - 1]);
                }
            }
        }
    }
}

proof fn lemma_join_words_spacing(ws: Seq<Seq<char>>)
    requires
        forall|k: int| 0 <= k < ws.len() ==> is_word(#[trigger] ws[k]),
    ensures
        single_spaced(join_words(ws)),
        ws.len() > 0 ==> join_words(ws).len() > 0 && !is_ws(join_words(ws)[0]) && !is_ws(
            join_words(ws).last(),
        ),
    decreases ws.len(),
{
    if ws.len() == 1 {
        assert(is_word(ws[0]));
    } else if ws.len() > 1 {
        let front = join_words(ws.drop_last());
        let w = ws.last();
        assert(is_word(w));
        assert forall|k: int| 0 <= k < ws.drop_last().len() implies is_word(#[trigger] ws.drop_last()[k]) by {
            assert(ws.drop_last()[k] == ws[k]);
        }
        lemma_join_words_spacing(ws.drop_last());
        let t = join_words(ws);
        assert(t == front + seq![' '] + w);
        assert forall|i: int| 0 <= i < t.len() && is_ws(#[trigger] t[i]) implies t[i] == ' ' && 0 < i
            < t.len() - 1 && !is_ws(t[i - 1]) && !is_ws(t[i + 1]) by {
            if i < front.len() {
                assert(t[i] == front[i]);
                assert(t[i - 1] == front[i - 1]);
                assert(t[i + 1] == front[i + 1]);
            } else if i == front.len() {
                assert(t[i - 1] == front.last());
                assert(t[i + 1] == w[0]);
            } else {
                assert(t[i] == w[i - front.len() - 1]);
            }
        }
        assert(t[0] == front[0]);
        assert(t.last() == w.last());
    }
}

/// The canonical form has no leading, trailing or repeated whitespace, and
/// no whitespace but single spaces between words.
pub proof fn lemma_normalized_single_spaced(s: Seq<char>)
    ensures
        single_spaced(normalized(s)),
{
    let leq = |x: Seq<char>, y: Seq<char>| lex_le(x, y);
    let ws = words(cleaned(s));
    lemma_lex_le_total();
    ws.lemma_sort_by_ensures(leq);
    lemma_words_are_words(cleaned(s));
    let sw = sorted_words(s);
    assert forall|k: int| 0 <= k < sw.len() implies is_word(#[trigger] sw[k]) by {
        assert(sw.to_multiset().count(sw[k]) > 0);
        assert(ws.to_multiset().count(sw[k]) > 0);
        assert(ws.contains(sw[k]));
        let j = choose|j: int| 0 <= j < ws.len() && ws[j] == sw[k];
        assert(is_word(ws[j]));
    }
    lemma_join_words_spacing(sw);
}

/// The chars of `c` that the char range `r` covers.
pub open spec fn range_text(c: Seq<char>, r: (usize, usize)) -> Seq<char> {
    c.subrange(r.0 as int, r.1 as int)
}

/// The texts that a sequence of char ranges covers.
pub open spec fn range_words(c: Seq<char>, rs: Seq<(usize, usize)>) -> Seq<Seq<char>> {
    rs.map_values(|r: (usize, usize)| range_text(c, r))
}

/// Every range lies within a text of length `n`.
pub open spec fn ranges_within(rs: Seq<(usize, usize)>, n: nat) -> bool {
    forall|p: int| 0 <= p < rs.len() ==> #[trigger] rs[p].0 <= rs[p].1 <= n
}

/// Chars `st..en` of `c` are a whole word: a non-empty run of
/// non-whitespace chars with whitespace or an end of `c` on each side.
pub open spec fn is_word_span(c: Seq<char>, st: nat, en: nat) -> bool {
    &&& st < en <= c.len()
    &&& (st == 0 || is_ws(c[st - 1]))
    &&& (en == c.len() || is_ws(c[en as int]))
    &&& forall|x: int| st <= x < en ==> !is_ws(#[trigger] c[x])
}

/// `r` is the byte span, in the UTF-8 encoding of `c`, of a whole word of
/// `c` whose text is `w`.
pub open spec fn spans_word(c: Seq<char>, r: (usize, usize), w: Seq<char>) -> bool {
    exists|st: nat, en: nat|
        is_word_span(c, st, en) && #[trigger] c.subrange(st as int, en as int) == w && r.0
            == byte_offset(c, st) && r.1 == #[trigger] byte_offset(c, en)
}

proof fn lemma_lead_run_at(c: Seq<char>, p: nat, e: nat)
    requires
        p <= e <= c.len(),
        forall|x: int| p <= x < e ==> !is_ws(#[trigger] c[x]),
        e == c.len() || is_ws(c[e as int]),
    ensures
        lead_run(c.skip(p as int)) == e - p,
    decreases e - p,
{
    if p < e {
        lemma_lead_run_at(c, p + 1, e);
        assert(c.skip(p as int).drop_first() =~= c.skip((p + 1) as int));
    }
}

proof fn lemma_word_run(c: Seq<char>, start: nat, e: nat)
    requires
        start < e <= c.len(),
        forall|x: int| start <= x < e ==> !is_ws(#[trigger] c[x]),
        e == c.len() || is_ws(c[e as int]),
    ensures
        words(c.skip(start as int)) == seq![c.subrange(start as int, e as int)] + words(
            c.skip(e as int),
        ),
{
    lemma_lead_run_at(c, start, e);
    let t = c.skip(start as int);
    assert(t[0] == c[start as int]);
    assert(t.take((e - start) as int) =~= c.subrange(start as int, e as int));
    assert(t.skip((e - start) as int) =~= c.skip(e as int));
}

proof fn lemma_skip_space(c: Seq<char>, i: nat)
    requires
        i < c.len(),
        is_ws(c[i as int]),
    ensures
        words(c.skip(i as int)) == words(c.skip((i + 1) as int)),
{
    assert(c.skip(i as int).drop_first() =~= c.skip((i + 1) as int));
}

/// Writes the cleaned form of `src` into `out`, and the same chars into `cv`.
fn clean_into(src: &Vec<char>, out: &mut String, cv: &mut Vec<char>)
    ensures
        final(out)@ == cleaned(src@),
        final(cv)@ == cleaned(src@),
{
    clear_string(out);
    cv.clear();
    let mut i: usize = 0;
    while i < src.len()
        invariant
            i <= src@.len(),
            out@ == cleaned(src@.take(i as int)),
            cv@ == out@,
        decreases src@.len() - i,
    {
        let c = src[i];
        let ghost before = out@;
        if alphanumeric(c) || whitespace(c) {
            let lw = lowercase(c);
            let mut q: usize = 0;
            while q < lw.len()
                invariant
                    q <= lw@.len(),
                    lw@ == lower_of(c),
                    out@ == before + lw@.take(q as int),
                    cv@ == out@,
                decreases lw@.len() - q,
            {
                push_char(out, lw[q]);
                cv.push(lw[q]);
                assert(lw@.take(q + 1) =~= lw@.take(q as int).push(lw@[q as int]));
                q = q + 1;
            }
            assert(lw@.take(lw@.len() as int) =~= lw@);
        } else {
            assert(out@ =~= before + Seq::<char>::empty());
        }
        assert(src@.take(i + 1).drop_last() =~= src@.take(i as int));
        i = i + 1;
    }
    assert(src@.take(src@.len() as int) =~= src@);
}

/// Splits `cv` into its words: their char ranges in order, and the byte
/// offset of every char position.
fn scan_words(cv: &Vec<char>, total_bytes: usize) -> (r: (Vec<(usize, usize)>, Vec<usize>))
    requires
        total_bytes == byte_offset(cv@, cv@.len()),
    ensures
        range_words(cv@, r.0@) == words(cv@),
        ranges_within(r.0@, cv@.len()),
        r.1@.len() == cv@.len() + 1,
        forall|p: int| 0 <= p <= cv@.len() ==> #[trigger] r.1@[p] == byte_offset(cv@, p as nat),
        forall|p: int| 0 <= p < r.0@.len() ==> is_word_span(cv@, #[trigger] r.0@[p].0 as nat, r.0@[p].1 as nat),
        r.0@.no_duplicates(),
{
    let ghost c = cv@;
    let n = cv.len();
    let mut found: Vec<(usize, usize)> = Vec::new();
    let mut byte_at: Vec<usize> = Vec::new();
    let mut b: usize = 0;
    let mut start: usize = 0;
    let mut in_word = false;
    let mut i: usize = 0;
    assert(c.skip(0) =~= c);
    assert(range_words(c, found@) =~= Seq::<Seq<char>>::empty());
    while i < n
        invariant
            i <= n,
            n == c.len(),
            cv@ == c,
            total_bytes == byte_offset(c, n as nat),
            b == byte_offset(c, i as nat),
            byte_at@.len() == i,
            forall|p: int| 0 <= p < i ==> #[trigger] byte_at@[p] == byte_offset(c, p as nat),
            ranges_within(found@, i as nat),
            start <= i,
            !in_word ==> words(c) == range_words(c, found@) + words(c.skip(i as int)),
            in_word ==> start < i && (forall|x: int| start <= x < i ==> !is_ws(#[trigger] c[x]))
                && words(c) == range_words(c, found@) + words(c.skip(start as int)),
            in_word ==> (start == 0 || is_ws(c[start - 1])),
            !in_word ==> (i == 0 || is_ws(c[i - 1])),
            forall|p: int| 0 <= p < found@.len() ==> is_word_span(c, #[trigger] found@[p].0 as nat, found@[p].1 as nat),
            forall|p: int| 0 <= p < found@.len() ==> #[trigger] found@[p].1 < i,
            in_word ==> forall|p: int| 0 <= p < found@.len() ==> #[trigger] found@[p].1 < start,
            forall|p: int, q: int| 0 <= p < q < found@.len() ==> #[trigger] found@[p].1 < #[trigger] found@[q].0,
        decreases n - i,
    {
        let ch = cv[i];
        proof {
            lemma_byte_offset_monotonic(c, (i + 1) as nat, n as nat);
        }
        byte_at.push(b);
        let w = utf8_width_of(ch);
        if whitespace(ch) {
            if in_word {
                proof {
                    lemma_word_run(c, start as nat, i as nat);
                    lemma_skip_space(c, i as nat);
                    assert(range_words(c, found@.push((start, i))) =~= range_words(c, found@).push(
                        c.subrange(start as int, i as int),
                    ));
                    assert(range_words(c, found@) + (seq![c.subrange(start as int, i as int)]
                        + words(c.skip(i as int))) =~= range_words(c, found@).push(
                        c.subrange(start as int, i as int),
                    ) + words(c.skip(i as int)));
                }
                found.push((start, i));
                in_word = false;
            } else {
                proof {
                    lemma_skip_space(c, i as nat);
                }
            }
        } else if !in_word {
            start = i;
            in_word = true;
        }
        b = b + w;
        i = i + 1;
    }
    byte_at.push(b);
    if in_word {
        proof {
            lemma_word_run(c, start as nat, n as nat);
            assert(range_words(c, found@.push((start, n))) =~= range_words(c, found@).push(
                c.subrange(start as int, n as int),
            ));
        }
        found.push((start, n));
    }
    assert(c.skip(n as int) =~= Seq::<char>::empty());
    assert(range_words(c, found@) =~= words(c));
    assert forall|p: int, q: int| 0 <= p < found@.len() && 0 <= q < found@.len() && p != q implies found@[p]
        != found@[q] by {
        if p < q {
            assert(found@[p].1 < found@[q].0);
        } else {
            assert(found@[q].1 < found@[p].0);
        }
    }
    (found, byte_at)
}

/// Compares the texts of two char ranges of `cv` in `lex_le` order.
fn range_le(cv: &Vec<char>, x: (usize, usize), y: (usize, usize)) -> (r: bool)
    requires
        x.0 <= x.1 <= cv@.len(),
        y.0 <= y.1 <= cv@.len(),
    ensures
        r == lex_le(range_text(cv@, x), range_text(cv@, y)),
{
    let ghost tx = range_text(cv@, x);
    let ghost ty = range_text(cv@, y);
    let lx = x.1 - x.0;
    let ly = y.1 - y.0;
    let mut p: usize = 0;
    assert(tx.skip(0) =~= tx && ty.skip(0) =~= ty);
    while p < lx && p < ly
        invariant
            p <= lx,
            p <= ly,
            lx == tx.len(),
            ly == ty.len(),
            x.0 <= x.1 <= cv@.len(),
            y.0 <= y.1 <= cv@.len(),
            lx == x.1 - x.0,
            ly == y.1 - y.0,
            tx == range_text(cv@, x),
            ty == range_text(cv@, y),
            lex_le(tx, ty) == lex_le(tx.skip(p as int), ty.skip(p as int)),
        decreases lx - p,
    {
        let a = cv[x.0 + p];
        let b = cv[y.0 + p];
        assert(tx.skip(p as int)[0] == a && ty.skip(p as int)[0] == b);
        if a != b {
            return a < b;
        }
        assert(tx.skip(p as int).drop_first() =~= tx.skip((p + 1) as int));
        assert(ty.skip(p as int).drop_first() =~= ty.skip((p + 1) as int));
        p = p + 1;
    }
    p == lx
}

/// The ranges reordered so that their texts are in `lex_le` order.
fn sort_ranges(cv: &Vec<char>, rs: &Vec<(usize, usize)>) -> (r: Vec<(usize, usize)>)
    requires
        ranges_within(rs@, cv@.len()),
    ensures
        ranges_within(r@, cv@.len()),
        sorted_by(range_words(cv@, r@), |x: Seq<char>, y: Seq<char>| lex_le(x, y)),
        range_words(cv@, r@).to_multiset() == range_words(cv@, rs@).to_multiset(),
        r@.to_multiset() == rs@.to_multiset(),
{
    let ghost c = cv@;
    let ghost leq = |x: Seq<char>, y: Seq<char>| lex_le(x, y);
    proof {
        lemma_lex_le_total();
    }
    let mut out: Vec<(usize, usize)> = Vec::new();
    let mut q: usize = 0;
    assert(range_words(c, out@) =~= range_words(c, rs@.take(0)));
    while q < rs.len()
        invariant
            q <= rs@.len(),
            c == cv@,
            ranges_within(rs@, c.len()),
            ranges_within(out@, c.len()),
            total_ordering(leq),
            leq == (|x: Seq<char>, y: Seq<char>| lex_le(x, y)),
            sorted_by(range_words(c, out@), leq),
            range_words(c, out@).to_multiset() == range_words(c, rs@.take(q as int)).to_multiset(),
            out@.to_multiset() == rs@.take(q as int).to_multiset(),
        decreases rs@.len() - q,
    {
        let x = rs[q];
        let ghost wx = range_text(c, x);
        let ghost ws = range_words(c, out@);
        let mut p: usize = 0;
        let mut go = true;
        while go && p < out.len()
            invariant
                p <= out@.len(),
                c == cv@,
                x.0 <= x.1 <= c.len(),
                ranges_within(out@, c.len()),
                ws == range_words(c, out@),
                wx == range_text(c, x),
                forall|j: int| 0 <= j < p ==> lex_le(#[trigger] ws[j], wx),
                !go ==> p < out@.len() && !lex_le(ws[p as int], wx),
            decreases out@.len() - p + (if go { 1int } else { 0int }),
        {
            if range_le(cv, out[p], x) {
                p = p + 1;
            } else {
                go = false;
            }
        }
        proof {
            let ws2 = range_words(c, out@.insert(p as int, x));
            assert(ws2 =~= ws.insert(p as int, wx));
            assert forall|i: int, j: int| 0 <= i < j < ws2.len() implies #[trigger] leq(
                ws2[i],
                ws2[j],
            ) by {
                if j < p {
                    assert(ws2[i] == ws[i] && ws2[j] == ws[j]);
                    assert(leq(ws[i], ws[j]));
                } else if i < p && j == p {
                    assert(ws2[i] == ws[i] && ws2[j] == wx);
                    assert(lex_le(ws[i], wx));
                } else if i < p {
                    assert(ws2[i] == ws[i] && ws2[j] == ws[j - 1]);
                    assert(leq(ws[i], ws[j - 1]));
                } else if i == p {
                    assert(ws2[i] == wx && ws2[j] == ws[j - 1]);
                    lemma_lex_le_connected(ws[p as int], wx);
                    if j - 1 > p {
                        assert(leq(ws[p as int], ws[j - 1]));
                        lemma_lex_le_transitive(wx, ws[p as int], ws[j - 1]);
                    }
                } else {
                    assert(ws2[i] == ws[i - 1] && ws2[j] == ws[j - 1]);
                    assert(leq(ws[i - 1], ws[j - 1]));
                }
            }
            assert(rs@.take((q + 1) as int) =~= rs@.take(q as int).push(x));
            assert(range_words(c, rs@.take((q + 1) as int)) =~= range_words(
                c,
                rs@.take(q as int),
            ).push(wx));
        }
        out.insert(p, x);
        q = q + 1;
    }
    assert(rs@.take(rs@.len() as int) =~= rs@);
    out
}

/// Writes the texts of the ranges into `out`, separated by single spaces.
fn join_into(cv: &Vec<char>, rs: &Vec<(usize, usize)>, out: &mut String)
    requires
        ranges_within(rs@, cv@.len()),
    ensures
        final(out)@ == join_words(range_words(cv@, rs@)),
{
    let ghost ws = range_words(cv@, rs@);
    clear_string(out);
    let mut q: usize = 0;
    assert(ws.take(0) =~= Seq::<Seq<char>>::empty());
    while q < rs.len()
        invariant
            q <= rs@.len(),
            ranges_within(rs@, cv@.len()),
            ws == range_words(cv@, rs@),
            out@ == join_words(ws.take(q as int)),
        decreases rs@.len() - q,
    {
        let ghost before = out@;
        if q > 0 {
            push_char(out, ' ');
        }
        let ghost lead = out@;
        let (st, en) = rs[q];
        let mut x = st;
        assert(cv@.subrange(st as int, st as int) =~= Seq::<char>::empty());
        while x < en
            invariant
                st <= x <= en <= cv@.len(),
                out@ == lead + cv@.subrange(st as int, x as int),
            decreases en - x,
        {
            push_char(out, cv[x]);
            assert(cv@.subrange(st as int, (x + 1) as int) =~= cv@.subrange(st as int, x as int).push(
                cv@[x as int],
            ));
            x = x + 1;
        }
        proof {
            assert(ws.take((q + 1) as int).drop_last() =~= ws.take(q as int));
            assert(ws[q as int] == cv@.subrange(st as int, en as int));
            if q == 0 {
                assert(out@ =~= ws[0]);
            } else {
                assert(out@ =~= before + seq![' '] + ws[q as int]);
            }
        }
        q = q + 1;
    }
    assert(ws.take(rs@.len() as int) =~= ws);
}

/// Canonical form of `s`: chars that are neither alphanumeric nor
/// whitespace removed, the rest lowercased (`cleaned_buf`), the words sorted
/// and joined by single spaces (`sorted_buf`); `token_ranges` receives the
/// byte span in `cleaned_buf` of each word, in sorted order. The three
/// buffers are overwritten, so a caller can reuse them across calls.
pub fn normalize(
    s: &str,
    cleaned_buf: &mut String,
    sorted_buf: &mut String,
    token_ranges: &mut Vec<(usize, usize)>,
)
    ensures
        final(cleaned_buf)@ == cleaned(s@),
        final(sorted_buf)@ == normalized(s@),
        final(token_ranges)@.len() == sorted_words(s@).len(),
        forall|i: int|
            0 <= i < final(token_ranges)@.len() ==> spans_word(
                final(cleaned_buf)@,
                #[trigger] final(token_ranges)@[i],
                sorted_words(s@)[i],
            ),
        final(token_ranges)@.no_duplicates(),
{
    let src = chars_of(s);
    let mut cv: Vec<char> = Vec::new();
    clean_into(&src, cleaned_buf, &mut cv);
    let total = byte_len(cleaned_buf);
    let (found, byte_at) = scan_words(&cv, total);
    let order = sort_ranges(&cv, &found);
    join_into(&cv, &order, sorted_buf);
    let ghost c = cv@;
    let ghost ws = range_words(c, order@);
    proof {
        let leq = |x: Seq<char>, y: Seq<char>| lex_le(x, y);
        lemma_lex_le_total();
        words(c).lemma_sort_by_ensures(leq);
        lemma_sorted_unique(ws, words(c).sort_by(leq), leq);
        assert(ws == sorted_words(s@));
        found@.lemma_multiset_has_no_duplicates();
        assert forall|x: (usize, usize)| order@.to_multiset().contains(x) implies order@.to_multiset().count(x) == 1 by {
            assert(found@.to_multiset().contains(x));
        }
        order@.lemma_multiset_has_no_duplicates_conv();
        assert forall|p: int| 0 <= p < order@.len() implies is_word_span(c, #[trigger] order@[p].0 as nat, order@[p].1 as nat) by {
            assert(order@.contains(order@[p]));
            assert(order@.to_multiset().contains(order@[p]));
            assert(found@.contains(order@[p]));
            let j = choose|j: int| 0 <= j < found@.len() && found@[j] == order@[p];
            assert(is_word_span(c, found@[j].0 as nat, found@[j].1 as nat));
        }
    }
    token_ranges.clear();
    let mut q: usize = 0;
    while q < order.len()
        invariant
            q <= order@.len(),
            c == cv@,
            c == cleaned_buf@,
            ranges_within(order@, c.len()),
            ws == range_words(c, order@),
            byte_at@.len() == c.len() + 1,
            forall|p: int| 0 <= p <= c.len() ==> #[trigger] byte_at@[p] == byte_offset(c, p as nat),
            token_ranges@.len() == q,
            forall|i: int| 0 <= i < q ==> spans_word(c, #[trigger] token_ranges@[i], ws[i]),
            forall|p: int| 0 <= p < order@.len() ==> is_word_span(c, #[trigger] order@[p].0 as nat, order@[p].1 as nat),
            order@.no_duplicates(),
            forall|i: int| 0 <= i < q ==> #[trigger] token_ranges@[i].0 == byte_offset(c, order@[i].0 as nat) && token_ranges@[i].1 == byte_offset(c, order@[i].1 as nat),
            token_ranges@.no_duplicates(),
        decreases order@.len() - q,
    {
        let (st, en) = order[q];
        token_ranges.push((byte_at[st], byte_at[en]));
        proof {
            assert(c.subrange(st as int, en as int) == ws[q as int]);
            assert(byte_at@[en as int] == byte_offset(c, en as nat));
            assert(spans_word(c, token_ranges@[q as int], ws[q as int]));
            assert forall|i: int, j: int| 0 <= i < j < token_ranges@.len() implies token_ranges@[i] != token_ranges@[j] by {
                if j == q {
                    let (a0, a1) = order@[i];
                    assert(order@[i] != order@[q as int]);
                    if a0 != st {
                        if a0 < st {
                            lemma_byte_offset_strict(c, a0 as nat, st as nat);
                        } else {
                            lemma_byte_offset_strict(c, st as nat, a0 as nat);
                        }
                    } else {
                        if a1 < en {
                            lemma_byte_offset_strict(c, a1 as nat, en as nat);
                        } else {
                            lemma_byte_offset_strict(c, en as nat, a1 as nat);
                        }
                    }
                }
            }
        }
        q = q + 1;
    }
}

} // verus!
