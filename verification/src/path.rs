//! Unix paths held as text, with the component semantics of `std::path`:
//! a leading `/` is the root component, empty and `.` pieces are skipped
//! (a relative path that starts with `.` keeps one current-directory
//! component), and comparison, prefix tests and counting go by components.
use vstd::prelude::*;
use crate::text::{chars_eq, push_all};

verus! {

/// The pieces of `s` between occurrences of `c`; there is always at least one.
pub open spec fn split_on(s: Seq<char>, c: char) -> Seq<Seq<char>>
    decreases s.len(),
{
    if s.len() == 0 {
        seq![Seq::<char>::empty()]
    } else {
        let rest = split_on(s.drop_last(), c);
        if s.last() == c {
            rest.push(Seq::<char>::empty())
        } else {
            rest.update(rest.len() - 1, rest.last().push(s.last()))
        }
    }
}

pub proof fn lemma_split_on_nonempty(s: Seq<char>, c: char)
    ensures
        split_on(s, c).len() >= 1,
    decreases s.len(),
{
    if s.len() > 0 {
        lemma_split_on_nonempty(s.drop_last(), c);
    }
}

/// The views of a sequence of character vectors.
pub open spec fn views(v: Seq<Vec<char>>) -> Seq<Seq<char>> {
    v.map_values(|x: Vec<char>| x@)
}

/// Splits `s` at every `c`.
pub fn split_on_exec(s: &[char], c: char) -> (r: Vec<Vec<char>>)
    ensures
        views(r@) == split_on(s@, c),
{
    let mut done: Vec<Vec<char>> = Vec::new();
    let mut cur: Vec<char> = Vec::new();
    let mut i: usize = 0;
    assert(s@.take(0) =~= Seq::<char>::empty());
    assert(views(done@).push(cur@) =~= split_on(s@.take(0), c));
    while i < s.len()
        invariant
            i <= s.len(),
            views(done@).push(cur@) == split_on(s@.take(i as int), c),
        decreases s.len() - i,
    {
        let ghost before = s@.take(i as int);
        assert(s@.take(i + 1).drop_last() =~= before);
        assert(s@.take(i + 1).last() == s@[i as int]);
        proof {
            lemma_split_on_nonempty(before, c);
        }
        if s[i] == c {
            let ghost old_done = done@;
            let ghost old_cur = cur@;
            done.push(cur);
            cur = Vec::new();
            assert(views(done@) =~= views(old_done).push(old_cur));
            assert(views(done@).push(cur@) =~= split_on(s@.take(i + 1), c));
        } else {
            let ghost old_cur = cur@;
            cur.push(s[i]);
            assert(views(done@).push(cur@) =~= split_on(s@.take(i + 1), c));
        }
        i = i + 1;
    }
    assert(s@.take(s.len() as int) =~= s@);
    let ghost before_push = done@;
    done.push(cur);
    assert(views(done@) =~= views(before_push).push(cur@));
    done
}

/// A piece that stands as a component of its own.
pub open spec fn normal_piece(p: Seq<char>) -> bool {
    p.len() > 0 && p != seq!['.']
}

/// The components of path `p`: the root is written `/`, a leading current
/// directory `.`, and every other component is its own text.
#[verifier::opaque]
pub open spec fn path_components(p: Seq<char>) -> Seq<Seq<char>> {
    let pieces = split_on(p, '/');
    let head = if p.len() > 0 && p[0] == '/' {
        seq![seq!['/']]
    } else if pieces[0] == seq!['.'] {
        seq![seq!['.']]
    } else {
        Seq::<Seq<char>>::empty()
    };
    head + pieces.filter(|q: Seq<char>| normal_piece(q))
}

/// Path equality goes by components, as for `std::path::Path`.
pub open spec fn path_eq(a: Seq<char>, b: Seq<char>) -> bool {
    path_components(a) == path_components(b)
}

/// `base` is a component-wise prefix of `p`.
pub open spec fn path_starts_with(p: Seq<char>, base: Seq<char>) -> bool {
    path_components(base).is_prefix_of(path_components(p))
}

/// Number of components of `p`.
pub open spec fn component_count(p: Seq<char>) -> nat {
    path_components(p).len()
}

/// The final component of `p`, when it is a name (not the root, `.` or `..`).
pub open spec fn file_name(p: Seq<char>) -> Option<Seq<char>> {
    let c = path_components(p);
    if c.len() > 0 && c.last() != seq!['/'] && c.last() != seq!['.'] && c.last() != seq!['.', '.'] {
        Some(c.last())
    } else {
        None
    }
}

fn is_dot(p: &[char]) -> (r: bool)
    ensures
        r == (p@ == seq!['.']),
{
    if p.len() == 1 && p[0] == '.' {
        assert(p@ =~= seq!['.']);
        true
    } else {
        false
    }
}

/// The components of `p`.
pub fn components(p: &[char]) -> (r: Vec<Vec<char>>)
    ensures
        views(r@) == path_components(p@),
{
    let pieces = split_on_exec(p, '/');
    proof {
        lemma_split_on_nonempty(p@, '/');
        reveal(path_components);
    }
    let mut out: Vec<Vec<char>> = Vec::new();
    if p.len() > 0 && p[0] == '/' {
        let root = vec!['/'];
        assert(root@ =~= seq!['/']);
        out.push(root);
        assert(views(out@) =~= seq![seq!['/']]);
    } else if is_dot(&pieces[0]) {
        let dot = vec!['.'];
        assert(dot@ =~= seq!['.']);
        out.push(dot);
        assert(views(out@) =~= seq![seq!['.']]);
    } else {
        assert(views(out@) =~= Seq::<Seq<char>>::empty());
    }
    let ghost head = views(out@);
    assert(views(out@) =~= head);
    let ghost pred = |q: Seq<char>| normal_piece(q);
    let mut i: usize = 0;
    assert(views(pieces@).take(0) =~= Seq::<Seq<char>>::empty());
    proof {
        reveal(Seq::filter);
    }
    while i < pieces.len()
        invariant
            i <= pieces.len(),
            views(pieces@) == split_on(p@, '/'),
            views(out@) == head + views(pieces@).take(i as int).filter(pred),
            pred == |q: Seq<char>| normal_piece(q),
        decreases pieces.len() - i,
    {
        proof {
            reveal(Seq::filter);
        }
        assert(views(pieces@).take(i + 1).drop_last() =~= views(pieces@).take(i as int));
        let piece = &pieces[i];
        if piece.len() > 0 && !is_dot(piece) {
            let ghost before = out@;
            out.push(piece.clone());
            assert(views(out@) =~= views(before).push(piece@));
        }
        assert(views(out@) =~= head + views(pieces@).take(i + 1).filter(pred));
        i = i + 1;
    }
    assert(views(pieces@).take(pieces.len() as int) =~= views(pieces@));
    out
}

fn comps_eq(a: &Vec<Vec<char>>, b: &Vec<Vec<char>>, n: usize) -> (r: bool)
    requires
        n <= a.len(),
        n <= b.len(),
    ensures
        r == (views(a@).take(n as int) == views(b@).take(n as int)),
{
    let mut i: usize = 0;
    while i < n
        invariant
            i <= n,
            n <= a.len(),
            n <= b.len(),
            forall|j: int| 0 <= j < i ==> a@[j]@ == b@[j]@,
        decreases n - i,
    {
        if !chars_eq(&a[i], &b[i]) {
            assert(views(a@).take(n as int)[i as int] != views(b@).take(n as int)[i as int]);
            return false;
        }
        i = i + 1;
    }
    assert(views(a@).take(n as int) =~= views(b@).take(n as int));
    true
}

/// Component-wise equality of two paths.
pub fn path_eq_exec(a: &[char], b: &[char]) -> (r: bool)
    ensures
        r == path_eq(a@, b@),
{
    let ca = components(a);
    let cb = components(b);
    if ca.len() != cb.len() {
        return false;
    }
    let r = comps_eq(&ca, &cb, ca.len());
    assert(views(ca@).take(ca.len() as int) =~= views(ca@));
    assert(views(cb@).take(cb.len() as int) =~= views(cb@));
    r
}

/// Whether `base` is a component-wise prefix of `p`.
pub fn path_starts_with_exec(p: &[char], base: &[char]) -> (r: bool)
    ensures
        r == path_starts_with(p@, base@),
{
    let cp = components(p);
    let cb = components(base);
    if cb.len() > cp.len() {
        return false;
    }
    let r = comps_eq(&cp, &cb, cb.len());
    assert(views(cb@).take(cb.len() as int) =~= views(cb@));
    proof {
        let x = path_components(base@);
        let y = path_components(p@);
        if r {
            assert forall|i: int| 0 <= i < x.len() implies x[i] == y[i] by {
                assert(views(cp@).take(cb.len() as int)[i] == y[i]);
            }
        } else {
            if x.is_prefix_of(y) {
                assert(views(cp@).take(cb.len() as int) =~= views(cb@).take(cb.len() as int));
            }
        }
    }
    r
}

/// Number of components of `p`.
pub fn component_count_exec(p: &[char]) -> (r: usize)
    ensures
        r == component_count(p@),
{
    components(p).len()
}

/// The final component of `p` when it is a name.
pub fn file_name_exec(p: &[char]) -> (r: Option<Vec<char>>)
    ensures
        match r {
            Some(v) => file_name(p@) == Some(v@),
            None => file_name(p@) is None,
        },
{
    let mut c = components(p);
    if c.len() == 0 {
        return None;
    }
    let ghost cv = views(c@);
    let last = c.pop().unwrap();
    assert(last@ == cv.last());
    let root = vec!['/'];
    let dot = vec!['.'];
    let dotdot = vec!['.', '.'];
    if chars_eq(&last, &root) || chars_eq(&last, &dot) || chars_eq(&last, &dotdot) {
        assert(root@ =~= seq!['/']);
        assert(dot@ =~= seq!['.']);
        assert(dotdot@ =~= seq!['.', '.']);
        None
    } else {
        assert(root@ =~= seq!['/']);
        assert(dot@ =~= seq!['.']);
        assert(dotdot@ =~= seq!['.', '.']);
        Some(last)
    }
}

/// The path `rel` appended to `base`, as `PathBuf::join` does for a relative
/// `rel`: a separator is put in between unless `base` is empty or already
/// ends with one.
pub open spec fn join_relative(base: Seq<char>, rel: Seq<char>) -> Seq<char> {
    if base.len() == 0 || base.last() == '/' {
        base + rel
    } else {
        base + seq!['/'] + rel
    }
}

/// Joins a relative path onto `base`.
pub fn join_relative_exec(base: &[char], rel: &[char]) -> (r: Vec<char>)
    ensures
        r@ == join_relative(base@, rel@),
{
    let mut out: Vec<char> = Vec::new();
    push_all(&mut out, base);
    if base.len() > 0 && base[base.len() - 1] != '/' {
        out.push('/');
    }
    push_all(&mut out, rel);
    assert(out@ =~= join_relative(base@, rel@));
    out
}

} // verus!
