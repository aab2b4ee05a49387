//! Character-level text utilities: conversions between `String` and
//! character vectors, substring search, padding, truncation and decimal
//! rendering, each specified over `Seq<char>`.
use vstd::prelude::*;

verus! {

/// `String::push`: the claim is what its documentation says, that the
/// character is appended to the end of the string.
pub assume_specification[ std::string::String::push ](s: &mut std::string::String, ch: char)
    ensures
        final(s)@ == old(s)@.push(ch),
;

/// The characters of `s`, in order.
pub fn chars_of(s: &str) -> (v: Vec<char>)
    ensures
        v@ == s@,
{
    let mut v: Vec<char> = Vec::new();
    for c in it: s.chars()
        invariant
            v@ == it.history(),
    {
        v.push(c);
    }
    proof {
        broadcast use vstd::string::group_string_axioms;
    }
    v
}

/// A `String` holding exactly the characters `v`.
pub fn string_of(v: &[char]) -> (s: String)
    ensures
        s@ == v@,
{
    let mut s = String::new();
    let mut i: usize = 0;
    while i < v.len()
        invariant
            i <= v.len(),
            s@ == v@.take(i as int),
        decreases v.len() - i,
    {
        s.push(v[i]);
        i = i + 1;
        assert(s@ =~= v@.take(i as int));
    }
    assert(v@.take(v.len() as int) =~= v@);
    s
}

/// Appends the characters of `s` to `out`.
pub fn push_str(out: &mut Vec<char>, s: &str)
    ensures
        final(out)@ == old(out)@ + s@,
{
    let v = chars_of(s);
    push_all(out, &v);
}

/// Appends `v` to `out`.
pub fn push_all(out: &mut Vec<char>, v: &[char])
    ensures
        final(out)@ == old(out)@ + v@,
{
    let ghost start = out@;
    let mut i: usize = 0;
    while i < v.len()
        invariant
            i <= v.len(),
            out@ == start + v@.take(i as int),
        decreases v.len() - i,
    {
        out.push(v[i]);
        i = i + 1;
        assert(out@ =~= start + v@.take(i as int));
    }
    assert(v@.take(v.len() as int) =~= v@);
}

/// Character-wise equality of two sequences.
pub fn chars_eq(a: &[char], b: &[char]) -> (r: bool)
    ensures
        r == (a@ == b@),
{
    if a.len() != b.len() {
        return false;
    }
    let mut i: usize = 0;
    while i < a.len()
        invariant
            i <= a.len(),
            a.len() == b.len(),
            forall|j: int| 0 <= j < i ==> a@[j] == b@[j],
        decreases a.len() - i,
    {
        if a[i] != b[i] {
            return false;
        }
        i = i + 1;
    }
    assert(a@ =~= b@);
    true
}

/// Equality of a `String` with a string slice.
pub fn str_is(s: &str, lit: &str) -> (r: bool)
    ensures
        r == (s@ == lit@),
{
    let a = chars_of(s);
    let b = chars_of(lit);
    chars_eq(&a, &b)
}

/// `p` occurs in `s` at position `i`.
pub open spec fn occurs_at(s: Seq<char>, p: Seq<char>, i: int) -> bool {
    0 <= i && i + p.len() <= s.len() && s.subrange(i, i + p.len()) == p
}

/// `s` contains `p` as a contiguous run (every sequence contains the empty one).
pub open spec fn contains_seq(s: Seq<char>, p: Seq<char>) -> bool {
    exists|i: int| occurs_at(s, p, i)
}

/// Position of the first occurrence of `p` in `s`.
#[verifier::opaque]
pub open spec fn first_occurrence(s: Seq<char>, p: Seq<char>) -> Option<int> {
    if contains_seq(s, p) {
        Some(choose|i: int| occurs_at(s, p, i) && forall|j: int| 0 <= j < i ==> !occurs_at(s, p, j))
    } else {
        None
    }
}

fn matches_at(s: &[char], p: &[char], i: usize) -> (r: bool)
    requires
        i + p.len() <= s.len(),
    ensures
        r == occurs_at(s@, p@, i as int),
{
    let mut k: usize = 0;
    while k < p.len()
        invariant
            i + p.len() <= s.len(),
            k <= p.len(),
            forall|j: int| 0 <= j < k ==> s@[i + j] == p@[j],
        decreases p.len() - k,
    {
        if s[i + k] != p[k] {
            assert(s@.subrange(i as int, i + p.len())[k as int] != p@[k as int]);
            return false;
        }
        k = k + 1;
    }
    assert(s@.subrange(i as int, i + p.len()) =~= p@);
    true
}

/// The first position at which `p` occurs in `s`, if any.
pub fn find_seq(s: &[char], p: &[char]) -> (r: Option<usize>)
    ensures
        r matches Some(i) ==> first_occurrence(s@, p@) == Some(i as int),
        r is None ==> first_occurrence(s@, p@) is None,
        r matches Some(i) ==> occurs_at(s@, p@, i as int),
        r is Some <==> contains_seq(s@, p@),
{
    reveal(first_occurrence);
    if p.len() > s.len() {
        assert(!contains_seq(s@, p@));
        return None;
    }
    if p.len() == 0 {
        assert(s@.subrange(0, 0) =~= p@);
        assert(occurs_at(s@, p@, 0));
        let ghost first = choose|k: int| occurs_at(s@, p@, k) && forall|j: int| 0 <= j < k ==> !occurs_at(s@, p@, j);
        assert(first == 0);
        return Some(0);
    }
    let mut i: usize = 0;
    let last = s.len() - p.len();
    while i <= last
        invariant
            1 <= p.len() <= s.len(),
            last == s.len() - p.len(),
            i <= last + 1,
            forall|j: int| 0 <= j < i ==> !occurs_at(s@, p@, j),
        decreases last + 1 - i,
    {
        if matches_at(s, p, i) {
            proof {
                reveal(first_occurrence);
            }
            let ghost first = choose|k: int| occurs_at(s@, p@, k) && forall|j: int| 0 <= j < k ==> !occurs_at(s@, p@, j);
            assert(occurs_at(s@, p@, i as int));
            assert(contains_seq(s@, p@));
            assert(first == i as int) by {
                if first < i {
                } else if first > i {
                }
            }
            return Some(i);
        }
        i = i + 1;
    }
    assert forall|j: int| !occurs_at(s@, p@, j) by {
        if 0 <= j < i {
        }
    }
    None
}

/// Whether `s` contains `p`.
pub fn contains(s: &[char], p: &[char]) -> (r: bool)
    ensures
        r == contains_seq(s@, p@),
{
    find_seq(s, p).is_some()
}

/// `s` with its first occurrence of `p` (if any) replaced by `w`.
#[verifier::opaque]
pub open spec fn replace_first(s: Seq<char>, p: Seq<char>, w: Seq<char>) -> Seq<char> {
    match first_occurrence(s, p) {
        Some(i) => s.take(i) + w + s.skip(i + p.len()),
        None => s,
    }
}

/// `s` with the `len` characters at `i` replaced by `w`.
fn splice(s: &[char], i: usize, len: usize, w: &[char]) -> (out: Vec<char>)
    requires
        i + len <= s.len(),
    ensures
        out@ == s@.take(i as int) + w@ + s@.skip(i + len),
{
    let mut out: Vec<char> = Vec::new();
    let mut k: usize = 0;
    while k < i
        invariant
            i + len <= s.len(),
            k <= i,
            out@ == s@.take(k as int),
        decreases i - k,
    {
        out.push(s[k]);
        k = k + 1;
        assert(out@ =~= s@.take(k as int));
    }
    push_all(&mut out, w);
    let ghost mid = out@;
    let mut k: usize = i + len;
    while k < s.len()
        invariant
            i + len <= k <= s.len(),
            out@ == mid + s@.subrange(i + len, k as int),
        decreases s.len() - k,
    {
        out.push(s[k]);
        k = k + 1;
        assert(out@ =~= mid + s@.subrange(i + len, k as int));
    }
    assert(s@.subrange(i + len, s.len() as int) =~= s@.skip(i + len));
    out
}

/// Replaces the first occurrence of `p` in `s` by `w`.
pub fn replace_first_exec(s: &[char], p: &[char], w: &[char]) -> (r: Vec<char>)
    ensures
        r@ == replace_first(s@, p@, w@),
{
    reveal(replace_first);
    match find_seq(s, p) {
        Some(i) => {
            let r = splice(s, i, p.len(), w);
            assert(replace_first(s@, p@, w@) == s@.take(i as int) + w@ + s@.skip(i + p.len()));
            r
        },
        None => {
            let mut out: Vec<char> = Vec::new();
            push_all(&mut out, s);
            out
        },
    }
}

/// `n` spaces.
pub open spec fn spaces(n: nat) -> Seq<char> {
    Seq::new(n, |i: int| ' ')
}

/// `s` followed by spaces up to `w` characters.
pub open spec fn pad_right(s: Seq<char>, w: nat) -> Seq<char> {
    if s.len() >= w {
        s
    } else {
        s + spaces((w - s.len()) as nat)
    }
}

/// `s` preceded by spaces up to `w` characters.
pub open spec fn pad_left(s: Seq<char>, w: nat) -> Seq<char> {
    if s.len() >= w {
        s
    } else {
        spaces((w - s.len()) as nat) + s
    }
}

/// Appends `n` spaces.
pub fn push_spaces(out: &mut Vec<char>, n: usize)
    ensures
        final(out)@ == old(out)@ + spaces(n as nat),
{
    let ghost start = out@;
    let mut i: usize = 0;
    while i < n
        invariant
            i <= n,
            out@ == start + spaces(i as nat),
        decreases n - i,
    {
        out.push(' ');
        i = i + 1;
        assert(out@ =~= start + spaces(i as nat));
    }
}

/// Appends `s` padded on the right to `w` characters.
pub fn push_pad_right(out: &mut Vec<char>, s: &[char], w: usize)
    ensures
        final(out)@ == old(out)@ + pad_right(s@, w as nat),
{
    let ghost start = out@;
    push_all(out, s);
    if s.len() < w {
        push_spaces(out, w - s.len());
        assert(out@ =~= start + pad_right(s@, w as nat));
    }
}

/// Appends `s` padded on the left to `w` characters.
pub fn push_pad_left(out: &mut Vec<char>, s: &[char], w: usize)
    ensures
        final(out)@ == old(out)@ + pad_left(s@, w as nat),
{
    let ghost start = out@;
    if s.len() < w {
        push_spaces(out, w - s.len());
    }
    push_all(out, s);
    assert(out@ =~= start + pad_left(s@, w as nat));
}

/// `s` cut to at most `w` characters, the last kept one replaced by an ellipsis
/// when anything was cut.
#[verifier::opaque]
pub open spec fn truncate(s: Seq<char>, w: nat) -> Seq<char> {
    if s.len() <= w {
        s
    } else if w == 0 {
        Seq::empty()
    } else {
        s.take(w - 1).push('…')
    }
}

/// Truncates `s` to `w` characters.
pub fn truncate_exec(s: &[char], w: usize) -> (r: Vec<char>)
    ensures
        r@ == truncate(s@, w as nat),
{
    reveal(truncate);
    let mut out: Vec<char> = Vec::new();
    if s.len() <= w {
        push_all(&mut out, s);
        return out;
    }
    if w == 0 {
        assert(out@ =~= truncate(s@, w as nat));
        return out;
    }
    let mut i: usize = 0;
    while i < w - 1
        invariant
            w >= 1,
            w < s.len(),
            i <= w - 1,
            out@ == s@.take(i as int),
        decreases w - 1 - i,
    {
        out.push(s[i]);
        i = i + 1;
        assert(out@ =~= s@.take(i as int));
    }
    out.push('…');
    out
}

pub proof fn lemma_truncate_len(s: Seq<char>, w: nat)
    ensures
        truncate(s, w).len() <= w,
        truncate(s, w).len() <= s.len(),
        forall|c: char| #[trigger] truncate(s, w).contains(c) ==> s.contains(c) || c == '…',
{
    reveal(truncate);
    if s.len() > w && w > 0 {
        assert forall|c: char| #[trigger] truncate(s, w).contains(c) implies s.contains(c) || c == '…' by {
            let k = choose|k: int| 0 <= k < truncate(s, w).len() && truncate(s, w)[k] == c;
            if k < w - 1 {
                assert(s[k] == c);
            }
        }
    }
}

/// The character of decimal digit `d`.
pub open spec fn digit_char(d: int) -> char {
    if d == 0 {
        '0'
    } else if d == 1 {
        '1'
    } else if d == 2 {
        '2'
    } else if d == 3 {
        '3'
    } else if d == 4 {
        '4'
    } else if d == 5 {
        '5'
    } else if d == 6 {
        '6'
    } else if d == 7 {
        '7'
    } else if d == 8 {
        '8'
    } else {
        '9'
    }
}

/// The decimal digits of `n`, without leading zeros.
pub open spec fn decimal(n: nat) -> Seq<char>
    decreases n,
{
    if n < 10 {
        seq![digit_char(n as int)]
    } else {
        decimal(n / 10).push(digit_char((n % 10) as int))
    }
}

fn digit(d: u128) -> (c: char)
    requires
        d < 10,
    ensures
        c == digit_char(d as int),
{
    if d == 0 {
        '0'
    } else if d == 1 {
        '1'
    } else if d == 2 {
        '2'
    } else if d == 3 {
        '3'
    } else if d == 4 {
        '4'
    } else if d == 5 {
        '5'
    } else if d == 6 {
        '6'
    } else if d == 7 {
        '7'
    } else if d == 8 {
        '8'
    } else {
        '9'
    }
}

/// Appends the decimal digits of `n`.
pub fn push_decimal(out: &mut Vec<char>, n: u128)
    ensures
        final(out)@ == old(out)@ + decimal(n as nat),
    decreases n,
{
    if n >= 10 {
        push_decimal(out, n / 10);
    }
    out.push(digit(n % 10));
    proof {
        if n >= 10 {
            assert(decimal(n as nat) == decimal((n / 10) as nat).push(digit_char((n % 10) as int)));
        }
    }
    assert(out@ =~= old(out)@ + decimal(n as nat));
}

/// `c` is one of the ten ASCII digits.
pub open spec fn is_ascii_digit(c: char) -> bool {
    '0' <= c && c <= '9'
}

pub proof fn lemma_decimal_digits(n: nat)
    ensures
        decimal(n).len() >= 1,
        forall|i: int| 0 <= i < decimal(n).len() ==> is_ascii_digit(#[trigger] decimal(n)[i]),
    decreases n,
{
    if n >= 10 {
        lemma_decimal_digits(n / 10);
    }
}

} // verus!

verus! {

/// The view of an optional owned string.
pub open spec fn opt_view(o: Option<String>) -> Option<Seq<char>> {
    match o {
        Some(s) => Some(s@),
        None => None,
    }
}

/// The view of an optional string slice.
pub open spec fn opt_str_view(o: Option<&str>) -> Option<Seq<char>> {
    match o {
        Some(s) => Some(s@),
        None => None,
    }
}

/// Whether the characters `v` spell `lit`.
pub fn seq_is(v: &[char], lit: &str) -> (r: bool)
    ensures
        r == (v@ == lit@),
{
    let l = chars_of(lit);
    chars_eq(v, &l)
}

/// A copy of an optional string.
pub fn clone_opt(o: &Option<String>) -> (r: Option<String>)
    ensures
        opt_view(r) == opt_view(*o),
{
    match o {
        Some(s) => Some(s.clone()),
        None => None,
    }
}

} // verus!

verus! {

/// `c` is white space in the sense of Unicode (as `char::is_whitespace`).
pub open spec fn is_whitespace(c: char) -> bool {
    ||| ('\u{9}' <= c && c <= '\u{d}')
    ||| c == ' '
    ||| c == '\u{85}'
    ||| c == '\u{a0}'
    ||| c == '\u{1680}'
    ||| ('\u{2000}' <= c && c <= '\u{200a}')
    ||| c == '\u{2028}'
    ||| c == '\u{2029}'
    ||| c == '\u{202f}'
    ||| c == '\u{205f}'
    ||| c == '\u{3000}'
}

/// Whether `c` is white space.
pub fn is_whitespace_exec(c: char) -> (r: bool)
    ensures
        r == is_whitespace(c),
{
    ('\u{9}' <= c && c <= '\u{d}') || c == ' ' || c == '\u{85}' || c == '\u{a0}' || c == '\u{1680}'
        || ('\u{2000}' <= c && c <= '\u{200a}') || c == '\u{2028}' || c == '\u{2029}' || c
        == '\u{202f}' || c == '\u{205f}' || c == '\u{3000}'
}

/// `s` without its trailing white space.
pub open spec fn trim_end(s: Seq<char>) -> Seq<char>
    decreases s.len(),
{
    if s.len() > 0 && is_whitespace(s.last()) {
        trim_end(s.drop_last())
    } else {
        s
    }
}

/// Removes trailing white space.
pub fn trim_end_exec(s: &[char]) -> (r: Vec<char>)
    ensures
        r@ == trim_end(s@),
{
    let mut end: usize = s.len();
    assert(s@.take(s.len() as int) =~= s@);
    while end > 0 && is_whitespace_exec(s[end - 1])
        invariant
            end <= s.len(),
            trim_end(s@) == trim_end(s@.take(end as int)),
        decreases end,
    {
        assert(s@.take(end as int).drop_last() =~= s@.take(end - 1));
        end = end - 1;
    }
    let mut out: Vec<char> = Vec::new();
    let mut i: usize = 0;
    while i < end
        invariant
            i <= end <= s.len(),
            out@ == s@.take(i as int),
        decreases end - i,
    {
        out.push(s[i]);
        i = i + 1;
        assert(out@ =~= s@.take(i as int));
    }
    assert(trim_end(s@.take(end as int)) == s@.take(end as int));
    out
}

pub proof fn lemma_trim_end_prefix(s: Seq<char>)
    ensures
        trim_end(s).len() <= s.len(),
        trim_end(s) == s.take(trim_end(s).len() as int),
    decreases s.len(),
{
    if s.len() > 0 && is_whitespace(s.last()) {
        lemma_trim_end_prefix(s.drop_last());
        assert(s.drop_last().take(trim_end(s).len() as int) =~= s.take(trim_end(s).len() as int));
    } else {
        assert(s.take(s.len() as int) =~= s);
    }
}

} // verus!

verus! {

/// `s` with every occurrence of the non-empty `p`, from the left and not
/// overlapping, replaced by `w` (as `str::replace`).
pub open spec fn replace_all(s: Seq<char>, p: Seq<char>, w: Seq<char>) -> Seq<char>
    decreases s.len(),
{
    if p.len() == 0 {
        s
    } else {
        match first_occurrence(s, p) {
            Some(i) => if 0 <= i && i + p.len() <= s.len() {
                s.take(i) + w + replace_all(s.skip(i + p.len()), p, w)
            } else {
                s
            },
            None => s,
        }
    }
}

/// Replaces every occurrence of `p` in `s` by `w`.
pub fn replace_all_exec(s: &[char], p: &[char], w: &[char]) -> (r: Vec<char>)
    requires
        p.len() > 0,
    ensures
        r@ == replace_all(s@, p@, w@),
{
    let mut out: Vec<char> = Vec::new();
    let mut rest: Vec<char> = Vec::new();
    push_all(&mut rest, s);
    assert(rest@ =~= s@);
    loop
        invariant
            p.len() > 0,
            out@ + replace_all(rest@, p@, w@) == replace_all(s@, p@, w@),
        decreases rest.len(),
    {
        match find_seq(&rest, p) {
            Some(i) => {
                let ghost before = rest@;
                let ghost pre = out@;
                let mut k: usize = 0;
                while k < i
                    invariant
                        k <= i,
                        i + p.len() <= rest.len(),
                        rest@ == before,
                        out@ == pre + before.take(k as int),
                    decreases i - k,
                {
                    out.push(rest[k]);
                    k = k + 1;
                    assert(out@ =~= pre + before.take(k as int));
                }
                push_all(&mut out, w);
                let mut next: Vec<char> = Vec::new();
                let mut q: usize = i + p.len();
                while q < rest.len()
                    invariant
                        i + p.len() <= q <= rest.len(),
                        rest@ == before,
                        next@ == before.subrange(i + p.len(), q as int),
                    decreases rest.len() - q,
                {
                    next.push(rest[q]);
                    q = q + 1;
                    assert(next@ =~= before.subrange(i + p.len(), q as int));
                }
                assert(next@ =~= before.skip(i + p.len()));
                assert(replace_all(before, p@, w@) == before.take(i as int) + w@ + replace_all(before.skip(i + p.len()), p@, w@));
                rest = next;
                assert(out@ + replace_all(rest@, p@, w@) =~= pre + replace_all(before, p@, w@));
            },
            None => {
                assert(replace_all(rest@, p@, w@) == rest@);
                push_all(&mut out, &rest);
                return out;
            },
        }
    }
}

} // verus!

verus! {

/// Whether `s` begins with `p`.
pub fn starts_with_exec(s: &[char], p: &[char]) -> (r: bool)
    ensures
        r == (p.len() <= s.len() && s@.take(p.len() as int) == p@),
{
    if p.len() > s.len() {
        return false;
    }
    let mut i: usize = 0;
    while i < p.len()
        invariant
            i <= p.len() <= s.len(),
            forall|k: int| 0 <= k < i ==> s@[k] == p@[k],
        decreases p.len() - i,
    {
        if s[i] != p[i] {
            assert(s@.take(p.len() as int)[i as int] != p@[i as int]);
            return false;
        }
        i = i + 1;
    }
    assert(s@.take(p.len() as int) =~= p@);
    true
}

} // verus!
