//! Orders used to lay out a report: the lexicographic order of text (that of
//! `str`, code point by code point), and a stable insertion sort of keyed
//! entries.
use vstd::prelude::*;

verus! {

/// `a` comes strictly before `b` in the lexicographic order of text.
#[verifier::opaque]
pub open spec fn seq_lt(a: Seq<char>, b: Seq<char>) -> bool
    decreases a.len(),
{
    if a.len() == 0 {
        b.len() > 0
    } else if b.len() == 0 {
        false
    } else if a[0] != b[0] {
        a[0] < b[0]
    } else {
        seq_lt(a.drop_first(), b.drop_first())
    }
}

pub proof fn lemma_seq_lt_irreflexive(a: Seq<char>)
    ensures
        !seq_lt(a, a),
    decreases a.len(),
{
    reveal(seq_lt);
    if a.len() > 0 {
        lemma_seq_lt_irreflexive(a.drop_first());
    }
}

pub proof fn lemma_seq_lt_asymmetric(a: Seq<char>, b: Seq<char>)
    ensures
        seq_lt(a, b) ==> !seq_lt(b, a),
    decreases a.len(),
{
    reveal(seq_lt);
    if a.len() > 0 && b.len() > 0 && a[0] == b[0] {
        lemma_seq_lt_asymmetric(a.drop_first(), b.drop_first());
    }
}

pub proof fn lemma_seq_lt_total(a: Seq<char>, b: Seq<char>)
    ensures
        a != b ==> seq_lt(a, b) || seq_lt(b, a),
    decreases a.len(),
{
    reveal(seq_lt);
    if a.len() > 0 && b.len() > 0 && a[0] == b[0] {
        lemma_seq_lt_total(a.drop_first(), b.drop_first());
        if a.drop_first() == b.drop_first() {
            assert(a =~= seq![a[0]] + a.drop_first());
            assert(b =~= seq![b[0]] + b.drop_first());
        }
    } else if a.len() == 0 && b.len() == 0 {
        assert(a =~= b);
    }
}

pub proof fn lemma_seq_lt_transitive(a: Seq<char>, b: Seq<char>, c: Seq<char>)
    requires
        seq_lt(a, b),
        seq_lt(b, c),
    ensures
        seq_lt(a, c),
    decreases a.len(),
{
    reveal(seq_lt);
    if a.len() > 0 && b.len() > 0 && c.len() > 0 && a[0] == b[0] && b[0] == c[0] {
        lemma_seq_lt_transitive(a.drop_first(), b.drop_first(), c.drop_first());
    } else if a.len() > 0 && b.len() > 0 && c.len() > 0 {
    }
}

proof fn lemma_seq_lt_skip(a: Seq<char>, b: Seq<char>, i: int)
    requires
        0 <= i <= a.len(),
        i <= b.len(),
        a.take(i) == b.take(i),
    ensures
        seq_lt(a, b) == seq_lt(a.skip(i), b.skip(i)),
    decreases i,
{
    reveal(seq_lt);
    if i > 0 {
        assert(a[0] == a.take(i)[0]);
        assert(b[0] == b.take(i)[0]);
        assert(a.drop_first().take(i - 1) =~= a.take(i).drop_first());
        assert(b.drop_first().take(i - 1) =~= b.take(i).drop_first());
        lemma_seq_lt_skip(a.drop_first(), b.drop_first(), i - 1);
        assert(a.drop_first().skip(i - 1) =~= a.skip(i));
        assert(b.drop_first().skip(i - 1) =~= b.skip(i));
    } else {
        assert(a.skip(0) =~= a);
        assert(b.skip(0) =~= b);
    }
}

/// Whether `a` comes strictly before `b` in the lexicographic order of text.
pub fn seq_lt_exec(a: &[char], b: &[char]) -> (r: bool)
    ensures
        r == seq_lt(a@, b@),
{
    let mut i: usize = 0;
    while i < a.len() && i < b.len()
        invariant
            i <= a.len(),
            i <= b.len(),
            a@.take(i as int) == b@.take(i as int),
        decreases a.len() - i,
    {
        if a[i] != b[i] {
            proof {
                reveal(seq_lt);
                lemma_seq_lt_skip(a@, b@, i as int);
                assert(a@.skip(i as int)[0] == a@[i as int]);
                assert(b@.skip(i as int)[0] == b@[i as int]);
            }
            return a[i] < b[i];
        }
        assert(a@.take(i + 1) =~= a@.take(i as int).push(a@[i as int]));
        assert(b@.take(i + 1) =~= b@.take(i as int).push(b@[i as int]));
        i = i + 1;
    }
    proof {
        reveal(seq_lt);
        lemma_seq_lt_skip(a@, b@, i as int);
    }
    i < b.len() && i == a.len()
}

/// An entry to be ordered: a two-part key and the position of the item it
/// stands for.
pub type Entry = (bool, u64, usize);

/// The key of `a` is strictly below that of `b` (`false` before `true`,
/// then by number).
pub open spec fn entry_lt(a: Entry, b: Entry) -> bool {
    (!a.0 && b.0) || (a.0 == b.0 && a.1 < b.1)
}

/// `e` inserted into `s` after every entry whose key is not above its own.
pub open spec fn insert_stable(s: Seq<Entry>, e: Entry) -> Seq<Entry>
    decreases s.len(),
{
    if s.len() == 0 {
        seq![e]
    } else if entry_lt(e, s.last()) {
        insert_stable(s.drop_last(), e).push(s.last())
    } else {
        s.push(e)
    }
}

/// `s` ordered by key, entries with equal keys kept in their order.
pub open spec fn stable_sort(s: Seq<Entry>) -> Seq<Entry>
    decreases s.len(),
{
    if s.len() == 0 {
        s
    } else {
        insert_stable(stable_sort(s.drop_last()), s.last())
    }
}

pub proof fn lemma_stable_sort_len(s: Seq<Entry>)
    ensures
        stable_sort(s).len() == s.len(),
        forall|k: int| 0 <= k < s.len() ==> #[trigger] stable_sort(s).contains(s[k]),
        forall|k: int| 0 <= k < s.len() ==> s.contains(#[trigger] stable_sort(s)[k]),
    decreases s.len(),
{
    if s.len() > 0 {
        lemma_stable_sort_len(s.drop_last());
        lemma_insert_stable_contents(stable_sort(s.drop_last()), s.last());
        let t = stable_sort(s.drop_last());
        assert forall|k: int| 0 <= k < s.len() implies #[trigger] stable_sort(s).contains(s[k]) by {
            if k < s.len() - 1 {
                assert(s.drop_last()[k] == s[k]);
                assert(t.contains(s[k]));
            }
        }
        assert forall|k: int| 0 <= k < s.len() implies s.contains(#[trigger] stable_sort(s)[k]) by {
            let x = stable_sort(s)[k];
            assert(insert_stable(t, s.last()).contains(x));
            if x != s.last() {
                assert(t.contains(x));
                let m = choose|m: int| 0 <= m < t.len() && t[m] == x;
                assert(s.drop_last().contains(x));
                let q = choose|q: int| 0 <= q < s.drop_last().len() && s.drop_last()[q] == x;
                assert(s[q] == x);
            } else {
                assert(s[s.len() - 1] == x);
            }
        }
    }
}

proof fn lemma_insert_stable_contents(s: Seq<Entry>, e: Entry)
    ensures
        insert_stable(s, e).len() == s.len() + 1,
        insert_stable(s, e).contains(e),
        forall|x: Entry| s.contains(x) ==> #[trigger] insert_stable(s, e).contains(x),
        forall|x: Entry| #[trigger] insert_stable(s, e).contains(x) ==> s.contains(x) || x == e,
    decreases s.len(),
{
    if s.len() > 0 {
        lemma_insert_stable_contents(s.drop_last(), e);
        if entry_lt(e, s.last()) {
            let t = insert_stable(s.drop_last(), e);
            assert(t.push(s.last())[t.len() as int] == s.last());
            assert forall|x: Entry| s.contains(x) implies #[trigger] insert_stable(s, e).contains(x) by {
                let k = choose|k: int| 0 <= k < s.len() && s[k] == x;
                if k < s.len() - 1 {
                    assert(s.drop_last()[k] == x);
                    assert(s.drop_last().contains(x));
                    assert(t.contains(x));
                    let m = choose|m: int| 0 <= m < t.len() && t[m] == x;
                    assert(t.push(s.last())[m] == x);
                }
            }
            assert forall|x: Entry| #[trigger] insert_stable(s, e).contains(x) implies s.contains(x)
                || x == e by {
                let k = choose|k: int| 0 <= k < t.len() + 1 && t.push(s.last())[k] == x;
                if k < t.len() {
                    assert(t.contains(x));
                    if x != e {
                        assert(s.drop_last().contains(x));
                        let q = choose|q: int| 0 <= q < s.drop_last().len() && s.drop_last()[q] == x;
                        assert(s[q] == x);
                    }
                } else {
                    assert(s[s.len() - 1] == x);
                }
            }
            let m = choose|m: int| 0 <= m < t.len() && t[m] == e;
            assert(t.push(s.last())[m] == e);
        } else {
            assert(s.push(e)[s.len() as int] == e);
            assert forall|x: Entry| s.contains(x) implies #[trigger] insert_stable(s, e).contains(x) by {
                let k = choose|k: int| 0 <= k < s.len() && s[k] == x;
                assert(s.push(e)[k] == x);
            }
        }
    } else {
        assert(seq![e][0] == e);
    }
}

/// `e` placed at `pos` in `s` is where the stable insertion puts it.
proof fn lemma_insert_stable_at(s: Seq<Entry>, e: Entry, pos: int)
    requires
        0 <= pos <= s.len(),
        forall|k: int| pos <= k < s.len() ==> entry_lt(e, #[trigger] s[k]),
        pos == 0 || !entry_lt(e, s[pos - 1]),
    ensures
        insert_stable(s, e) == s.insert(pos, e),
    decreases s.len(),
{
    if s.len() == 0 {
        assert(s.insert(pos, e) =~= seq![e]);
    } else if pos < s.len() {
        assert(entry_lt(e, s[s.len() - 1]));
        let t = s.drop_last();
        assert forall|k: int| pos <= k < t.len() implies entry_lt(e, #[trigger] t[k]) by {
            assert(t[k] == s[k]);
        }
        lemma_insert_stable_at(t, e, pos);
        assert(t.insert(pos, e).push(s.last()) =~= s.insert(pos, e));
    } else {
        assert(s.insert(pos, e) =~= s.push(e));
    }
}

/// Inserts `e` into the stably ordered `out`.
pub fn insert_stable_exec(out: &mut Vec<Entry>, e: Entry)
    ensures
        final(out)@ == insert_stable(old(out)@, e),
{
    let mut pos: usize = out.len();
    while pos > 0 && ((!e.0 && out[pos - 1].0) || (e.0 == out[pos - 1].0 && e.1 < out[pos - 1].1))
        invariant
            pos <= out.len(),
            out@ == old(out)@,
            forall|k: int| pos <= k < out.len() ==> entry_lt(e, #[trigger] out@[k]),
        decreases pos,
    {
        pos = pos - 1;
    }
    proof {
        lemma_insert_stable_at(out@, e, pos as int);
    }
    out.insert(pos, e);
}

/// `s` ordered stably by key.
pub fn stable_sort_exec(s: &Vec<Entry>) -> (r: Vec<Entry>)
    ensures
        r@ == stable_sort(s@),
{
    let mut out: Vec<Entry> = Vec::new();
    let mut i: usize = 0;
    assert(s@.take(0) =~= Seq::<Entry>::empty());
    while i < s.len()
        invariant
            i <= s.len(),
            out@ == stable_sort(s@.take(i as int)),
        decreases s.len() - i,
    {
        assert(s@.take(i + 1).drop_last() =~= s@.take(i as int));
        assert(s@.take(i + 1).last() == s@[i as int]);
        insert_stable_exec(&mut out, s[i]);
        i = i + 1;
    }
    assert(s@.take(s.len() as int) =~= s@);
    out
}

} // verus!

verus! {

/// `s` is in strictly increasing text order.
pub open spec fn strictly_sorted(s: Seq<Seq<char>>) -> bool {
    forall|i: int, j: int| 0 <= i < j < s.len() ==> seq_lt(#[trigger] s[i], #[trigger] s[j])
}

/// Two strictly sorted lists with the same elements are the same list.
pub proof fn lemma_sorted_unique(a: Seq<Seq<char>>, b: Seq<Seq<char>>)
    requires
        strictly_sorted(a),
        strictly_sorted(b),
        forall|x: Seq<char>| a.contains(x) <==> b.contains(x),
    ensures
        a == b,
    decreases a.len(),
{
    if a.len() == 0 {
        if b.len() > 0 {
            assert(b.contains(b[0]));
        }
        assert(a =~= b);
    } else {
        assert(a.contains(a[0]));
        let q = choose|q: int| 0 <= q < b.len() && b[q] == a[0];
        assert(b.contains(b[0]));
        let r = choose|r: int| 0 <= r < a.len() && a[r] == b[0];
        if q > 0 {
            assert(seq_lt(b[0], b[q]));
            if r > 0 {
                assert(seq_lt(a[0], a[r]));
                lemma_seq_lt_asymmetric(a[0], b[0]);
            } else {
                lemma_seq_lt_irreflexive(a[0]);
            }
        }
        assert(b[0] == a[0]);
        let a2 = a.drop_first();
        let b2 = b.drop_first();
        assert forall|x: Seq<char>| a2.contains(x) <==> b2.contains(x) by {
            if a2.contains(x) {
                let i = choose|i: int| 0 <= i < a2.len() && a2[i] == x;
                assert(a[i + 1] == x);
                assert(seq_lt(a[0], a[i + 1]));
                assert(b.contains(x));
                let k = choose|k: int| 0 <= k < b.len() && b[k] == x;
                if k == 0 {
                    lemma_seq_lt_irreflexive(x);
                }
                assert(b2[k - 1] == x);
            }
            if b2.contains(x) {
                let i = choose|i: int| 0 <= i < b2.len() && b2[i] == x;
                assert(b[i + 1] == x);
                assert(seq_lt(b[0], b[i + 1]));
                assert(a.contains(x));
                let k = choose|k: int| 0 <= k < a.len() && a[k] == x;
                if k == 0 {
                    lemma_seq_lt_irreflexive(x);
                }
                assert(a2[k - 1] == x);
            }
        }
        assert forall|i: int, j: int| 0 <= i < j < a2.len() implies seq_lt(#[trigger] a2[i], #[trigger] a2[j]) by {
            assert(a2[i] == a[i + 1] && a2[j] == a[j + 1]);
        }
        assert forall|i: int, j: int| 0 <= i < j < b2.len() implies seq_lt(#[trigger] b2[i], #[trigger] b2[j]) by {
            assert(b2[i] == b[i + 1] && b2[j] == b[j + 1]);
        }
        lemma_sorted_unique(a2, b2);
        assert(a2.len() == b2.len());
        assert(b.len() > 0);
        assert(a.len() == b.len());
        assert(a =~= b) by {
            assert forall|i: int| 0 <= i < a.len() implies a[i] == b[i] by {
                if i > 0 {
                    assert(a[i] == a2[i - 1] && b[i] == b2[i - 1]);
                }
            }
        }
    }
}

/// Adds `k` to the strictly sorted `keys` unless it is there already.
pub fn insert_key(keys: &mut Vec<Vec<char>>, k: Vec<char>)
    requires
        strictly_sorted(crate::path::views(old(keys)@)),
    ensures
        strictly_sorted(crate::path::views(final(keys)@)),
        forall|x: Seq<char>| #[trigger] crate::path::views(final(keys)@).contains(x) <==> (
            crate::path::views(old(keys)@).contains(x) || x == k@),
{
    let ghost kv = k@;
    let ghost old_v = crate::path::views(keys@);
    let mut p: usize = 0;
    while p < keys.len() && seq_lt_exec(&keys[p], &k)
        invariant
            p <= keys.len(),
            keys@ == old(keys)@,
            k@ == kv,
            forall|q: int| 0 <= q < p ==> seq_lt(#[trigger] keys@[q]@, kv),
        decreases keys.len() - p,
    {
        p = p + 1;
    }
    if p < keys.len() && crate::text::chars_eq(&keys[p], &k) {
        assert(old_v[p as int] == kv);
        return;
    }
    proof {
        if p < keys.len() {
            lemma_seq_lt_total(old_v[p as int], kv);
        }
    }
    keys.insert(p, k);
    proof {
        let nv = crate::path::views(keys@);
        assert(nv =~= old_v.insert(p as int, kv));
        assert forall|a: int, b: int| 0 <= a < b < nv.len() implies seq_lt(#[trigger] nv[a], #[trigger] nv[b]) by {
            if b < p {
                assert(nv[a] == old_v[a] && nv[b] == old_v[b]);
            } else if b == p {
                assert(nv[a] == old_v[a]);
                assert(old_v[a] == old(keys)@[a]@);
            } else if a == p {
                assert(nv[b] == old_v[b - 1]);
                if b - 1 > p {
                    assert(seq_lt(old_v[p as int], old_v[b - 1]));
                    lemma_seq_lt_transitive(kv, old_v[p as int], old_v[b - 1]);
                }
            } else if a < p {
                assert(nv[a] == old_v[a] && nv[b] == old_v[b - 1]);
            } else {
                assert(nv[a] == old_v[a - 1] && nv[b] == old_v[b - 1]);
            }
        }
        assert forall|x: Seq<char>| nv.contains(x) <==> (old_v.contains(x) || x == kv) by {
            if nv.contains(x) {
                let i = choose|i: int| 0 <= i < nv.len() && nv[i] == x;
                if i < p {
                    assert(old_v[i] == x);
                } else if i > p {
                    assert(old_v[i - 1] == x);
                }
            }
            if old_v.contains(x) {
                let i = choose|i: int| 0 <= i < old_v.len() && old_v[i] == x;
                if i < p {
                    assert(nv[i] == x);
                } else {
                    assert(nv[i + 1] == x);
                }
            }
            if x == kv {
                assert(nv[p as int] == x);
            }
        }
    }
}

} // verus!
