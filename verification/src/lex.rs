//! Splitting text into lines and words, and reading unsigned numbers, with
//! the meaning that `str::lines`, `str::split_whitespace`,
//! `str::split_once` and `u64::from_str` give them.
use vstd::prelude::*;
use crate::path::{split_on, split_on_exec, views, lemma_split_on_nonempty};
use crate::text::{find_seq, first_occurrence, is_whitespace, is_whitespace_exec, push_all};

verus! {

/// `s` without one trailing carriage return.
pub open spec fn strip_cr(s: Seq<char>) -> Seq<char> {
    if s.len() > 0 && s.last() == '\r' {
        s.drop_last()
    } else {
        s
    }
}

/// Each of `p` without one trailing carriage return.
pub open spec fn strip_all(p: Seq<Seq<char>>) -> Seq<Seq<char>> {
    p.map_values(|x: Seq<char>| strip_cr(x))
}

/// The lines of `s`: split at `\n`, a `\r` before a `\n` dropped, and no
/// empty line after a final `\n`.
pub open spec fn lines(s: Seq<char>) -> Seq<Seq<char>> {
    if s.len() == 0 {
        Seq::empty()
    } else {
        let p = split_on(s, '\n');
        let body = strip_all(p.take(p.len() - 1));
        if p.last().len() == 0 {
            body
        } else {
            body.push(p.last())
        }
    }
}

fn strip_cr_exec(s: &Vec<char>) -> (r: Vec<char>)
    ensures
        r@ == strip_cr(s@),
{
    let mut out: Vec<char> = Vec::new();
    let n = if s.len() > 0 && s[s.len() - 1] == '\r' { s.len() - 1 } else { s.len() };
    let mut i: usize = 0;
    while i < n
        invariant
            i <= n <= s.len(),
            out@ == s@.take(i as int),
        decreases n - i,
    {
        out.push(s[i]);
        i = i + 1;
        assert(out@ =~= s@.take(i as int));
    }
    assert(out@ =~= strip_cr(s@));
    out
}

/// The lines of `s`.
pub fn lines_exec(s: &[char]) -> (r: Vec<Vec<char>>)
    ensures
        views(r@) == lines(s@),
{
    let mut out: Vec<Vec<char>> = Vec::new();
    if s.len() == 0 {
        assert(views(out@) =~= lines(s@));
        return out;
    }
    let pieces = split_on_exec(s, '\n');
    proof {
        lemma_split_on_nonempty(s@, '\n');
    }
    let ghost p = views(pieces@);
    let last = pieces.len() - 1;
    let mut i: usize = 0;
    while i < last
        invariant
            i <= last,
            last == pieces.len() - 1,
            p == views(pieces@),
            views(out@) == strip_all(p.take(i as int)),
        decreases last - i,
    {
        let l = strip_cr_exec(&pieces[i]);
        assert(p[i as int] == pieces@[i as int]@);
        let ghost ov = views(out@);
        out.push(l);
        assert(views(out@) =~= ov.push(l@));
        assert(strip_all(p.take(i + 1)) =~= strip_all(p.take(i as int)).push(strip_cr(p[i as int])));
        i = i + 1;
    }
    if pieces[last].len() > 0 {
        let mut l: Vec<char> = Vec::new();
        push_all(&mut l, &pieces[last]);
        out.push(l);
    }
    assert(views(out@) =~= lines(s@));
    out
}

/// The pieces of `s` between white space characters (empty ones included).
pub open spec fn ws_pieces(s: Seq<char>) -> Seq<Seq<char>>
    decreases s.len(),
{
    if s.len() == 0 {
        seq![Seq::<char>::empty()]
    } else {
        let rest = ws_pieces(s.drop_last());
        if is_whitespace(s.last()) {
            rest.push(Seq::<char>::empty())
        } else {
            rest.update(rest.len() - 1, rest.last().push(s.last()))
        }
    }
}

proof fn lemma_ws_pieces_nonempty(s: Seq<char>)
    ensures
        ws_pieces(s).len() >= 1,
    decreases s.len(),
{
    if s.len() > 0 {
        lemma_ws_pieces_nonempty(s.drop_last());
    }
}

/// The words of `s`: its maximal runs of characters that are not white space.
pub open spec fn words(s: Seq<char>) -> Seq<Seq<char>> {
    ws_pieces(s).filter(|q: Seq<char>| q.len() > 0)
}

/// The words of `s`.
pub fn words_exec(s: &[char]) -> (r: Vec<Vec<char>>)
    ensures
        views(r@) == words(s@),
{
    let mut done: Vec<Vec<char>> = Vec::new();
    let mut cur: Vec<char> = Vec::new();
    let ghost pred = |q: Seq<char>| q.len() > 0;
    let mut i: usize = 0;
    assert(s@.take(0) =~= Seq::<char>::empty());
    proof {
        reveal(Seq::filter);
        assert(ws_pieces(s@.take(0)).drop_last().filter(pred) =~= Seq::<Seq<char>>::empty());
    }
    while i < s.len()
        invariant
            i <= s.len(),
            pred == |q: Seq<char>| q.len() > 0,
            ws_pieces(s@.take(i as int)).len() >= 1,
            ws_pieces(s@.take(i as int)).last() == cur@,
            views(done@) == ws_pieces(s@.take(i as int)).drop_last().filter(pred),
        decreases s.len() - i,
    {
        proof {
            reveal(Seq::filter);
        }
        let ghost before = s@.take(i as int);
        assert(s@.take(i + 1).drop_last() =~= before);
        assert(s@.take(i + 1).last() == s@[i as int]);
        proof {
            lemma_ws_pieces_nonempty(before);
        }
        let ghost wp = ws_pieces(before);
        if is_whitespace_exec(s[i]) {
            let ghost old_done = views(done@);
            if cur.len() > 0 {
                done.push(cur);
                assert(views(done@) =~= old_done.push(wp.last()));
            }
            cur = Vec::new();
            assert(ws_pieces(s@.take(i + 1)) == wp.push(Seq::<char>::empty()));
            assert(ws_pieces(s@.take(i + 1)).drop_last() =~= wp);
            assert(wp =~= wp.drop_last().push(wp.last()));
            assert(views(done@) == wp.filter(pred));
        } else {
            cur.push(s[i]);
            let ghost nw = ws_pieces(s@.take(i + 1));
            assert(nw == wp.update(wp.len() - 1, wp.last().push(s@[i as int])));
            assert(nw.drop_last() =~= wp.drop_last());
        }
        i = i + 1;
    }
    assert(s@.take(s.len() as int) =~= s@);
    proof {
        reveal(Seq::filter);
        lemma_ws_pieces_nonempty(s@);
        let wp = ws_pieces(s@);
        assert(wp =~= wp.drop_last().push(wp.last()));
    }
    if cur.len() > 0 {
        let ghost old_done = views(done@);
        done.push(cur);
        assert(views(done@) =~= old_done.push(ws_pieces(s@).last()));
    }
    done
}

/// `s` split at the first occurrence of `p`.
pub open spec fn split_once(s: Seq<char>, p: Seq<char>) -> Option<(Seq<char>, Seq<char>)> {
    match first_occurrence(s, p) {
        Some(i) => Some((s.take(i), s.skip(i + p.len()))),
        None => None,
    }
}

/// Splits `s` at the first occurrence of `p`.
pub fn split_once_exec(s: &[char], p: &[char]) -> (r: Option<(Vec<char>, Vec<char>)>)
    ensures
        match r {
            Some((a, b)) => split_once(s@, p@) == Some((a@, b@)),
            None => split_once(s@, p@) is None,
        },
{
    match find_seq(s, p) {
        Some(i) => {
            let mut a: Vec<char> = Vec::new();
            let mut k: usize = 0;
            while k < i
                invariant
                    k <= i,
                    i + p.len() <= s.len(),
                    a@ == s@.take(k as int),
                decreases i - k,
            {
                a.push(s[k]);
                k = k + 1;
                assert(a@ =~= s@.take(k as int));
            }
            let mut b: Vec<char> = Vec::new();
            let mut q: usize = i + p.len();
            while q < s.len()
                invariant
                    i + p.len() <= q <= s.len(),
                    b@ == s@.subrange(i + p.len(), q as int),
                decreases s.len() - q,
            {
                b.push(s[q]);
                q = q + 1;
                assert(b@ =~= s@.subrange(i + p.len(), q as int));
            }
            assert(b@ =~= s@.skip(i + p.len()));
            Some((a, b))
        },
        None => None,
    }
}

/// The value of the ASCII digit `c`.
pub open spec fn digit_value(c: char) -> nat {
    ((c as u32) - ('0' as u32)) as nat
}

/// The number written by the digits `s`.
pub open spec fn digits_value(s: Seq<char>) -> nat
    decreases s.len(),
{
    if s.len() == 0 {
        0
    } else {
        digits_value(s.drop_last()) * 10 + digit_value(s.last())
    }
}

/// `s` is a non-empty run of ASCII digits.
pub open spec fn all_digits(s: Seq<char>) -> bool {
    s.len() > 0 && forall|i: int| 0 <= i < s.len() ==> '0' <= #[trigger] s[i] && s[i] <= '9'
}

/// The digits of an unsigned number, after an optional `+`.
pub open spec fn unsigned_digits(s: Seq<char>) -> Seq<char> {
    if s.len() > 0 && s[0] == '+' {
        s.drop_first()
    } else {
        s
    }
}

/// Why text is not an unsigned number.
#[derive(Debug, Clone, Copy, PartialEq, Eq, Structural)]
pub enum NumberError {
    /// The text is empty.
    Empty,
    /// The text holds something other than digits after an optional `+`.
    InvalidDigit,
    /// The number is larger than the type holds.
    TooLarge,
}

/// `s` read as an unsigned number of at most `max`, as `u64::from_str` and
/// `usize::from_str` read it.
pub open spec fn parse_unsigned(s: Seq<char>, max: nat) -> Result<nat, NumberError> {
    let d = unsigned_digits(s);
    if s.len() == 0 {
        Err(NumberError::Empty)
    } else if !all_digits(d) {
        Err(NumberError::InvalidDigit)
    } else if digits_value(d) > max {
        Err(NumberError::TooLarge)
    } else {
        Ok(digits_value(d))
    }
}

proof fn lemma_digits_value_monotone(s: Seq<char>, i: int)
    requires
        0 <= i <= s.len(),
        all_digits(s) || s.len() == 0,
        forall|k: int| 0 <= k < s.len() ==> '0' <= #[trigger] s[k] && s[k] <= '9',
    ensures
        digits_value(s.take(i)) <= digits_value(s),
    decreases s.len() - i,
{
    if i < s.len() {
        let t = s.take(i + 1);
        assert(t.drop_last() =~= s.take(i));
        lemma_digits_value_monotone(s, i + 1);
        assert(digits_value(t) == digits_value(s.take(i)) * 10 + digit_value(t.last()));
    } else {
        assert(s.take(i) =~= s);
    }
}

/// Reads `s` as an unsigned number of at most `max`.
pub fn parse_unsigned_exec(s: &[char], max: u64) -> (r: Result<u64, NumberError>)
    ensures
        match r {
            Ok(v) => parse_unsigned(s@, max as nat) == Ok::<nat, NumberError>(v as nat),
            Err(e) => parse_unsigned(s@, max as nat) == Err::<nat, NumberError>(e),
        },
{
    if s.len() == 0 {
        return Err(NumberError::Empty);
    }
    let start: usize = if s[0] == '+' { 1 } else { 0 };
    let ghost d = unsigned_digits(s@);
    assert(d =~= s@.skip(start as int));
    if start == s.len() {
        return Err(NumberError::InvalidDigit);
    }
    let mut k: usize = start;
    while k < s.len()
        invariant
            start <= k <= s.len(),
            start <= 1,
            d == s@.skip(start as int),
            s@.len() > 0,
            start == 1 <==> s@[0] == '+',
            d == unsigned_digits(s@),
            forall|j: int| start <= j < k ==> '0' <= #[trigger] s@[j] && s@[j] <= '9',
        decreases s.len() - k,
    {
        if !('0' <= s[k] && s[k] <= '9') {
            assert(d[k - start] == s@[k as int]);
            return Err(NumberError::InvalidDigit);
        }
        k = k + 1;
    }
    assert(all_digits(d)) by {
        assert forall|i: int| 0 <= i < d.len() implies '0' <= #[trigger] d[i] && d[i] <= '9' by {
            assert(d[i] == s@[start + i]);
        }
    }
    let mut v: u64 = 0;
    let mut i: usize = start;
    assert(d.take(0) =~= Seq::<char>::empty());
    while i < s.len()
        invariant
            start <= i <= s.len(),
            d == s@.skip(start as int),
            d == unsigned_digits(s@),
            s@.len() > 0,
            all_digits(d),
            v <= max,
            v as nat == digits_value(d.take(i - start)),
        decreases s.len() - i,
    {
        let c = s[i];
        assert(d[i - start] == c);
        let dv: u64 = (c as u32 - '0' as u32) as u64;
        assert(d.take(i + 1 - start).drop_last() =~= d.take(i - start));
        assert(d.take(i + 1 - start).last() == c);
        let nv: u128 = (v as u128) * 10 + (dv as u128);
        if nv > max as u128 {
            proof {
                lemma_digits_value_monotone(d, i + 1 - start);
                assert(digits_value(d.take(i + 1 - start)) == v * 10 + dv);
            }
            return Err(NumberError::TooLarge);
        }
        v = nv as u64;
        i = i + 1;
    }
    assert(d.take(s.len() - start) =~= d);
    Ok(v)
}

} // verus!
