//! Explanations of hidden mounts: what a mount is, what backs it, and why
//! it is not counted as a disk.
use vstd::prelude::*;
use crate::model::{MountView, StorageReport};
use crate::text::{chars_of, contains, contains_seq, push_str, str_is, string_of};

verus! {

/// The lowercase of `s`, by Unicode's full lowercase mapping.
pub uninterp spec fn lowercase(s: Seq<char>) -> Seq<char>;

/// `str::to_lowercase`: `s` with every character replaced by its Unicode
/// lowercase mapping. Its result is named by `lowercase`; what the mapping
/// is, character by character, is left to Unicode's tables.
#[verifier::external_body]
fn to_lowercase(s: &str) -> (r: String)
    ensures
        r@ == lowercase(s@),
{
    s.to_lowercase()
}

/// Why a query could not be explained.
#[derive(Debug, Clone, PartialEq, Eq)]
pub enum ExplainError {
    /// No hidden mount matches the query, which is not `tmpfs` either.
    NoMatch(String),
}

/// The message of an unmatched query.
pub open spec fn no_match_message(q: Seq<char>) -> Seq<char> {
    "No mount or category matches '"@ + q + "'"@
}

impl ExplainError {
    /// The message to show for the error.
    pub fn message(&self) -> (r: String)
        ensures
            match self {
                ExplainError::NoMatch(q) => r@ == no_match_message(q@),
            },
    {
        match self {
            ExplainError::NoMatch(q) => {
                let mut out: Vec<char> = Vec::new();
                push_str(&mut out, "No mount or category matches '");
                push_str(&mut out, q.as_str());
                push_str(&mut out, "'");
                string_of(&out)
            },
        }
    }
}

/// A mount whose target lowercased is `target` and whose filesystem
/// lowercased is `fs` matches the lowercased query `q` when either equals it
/// or the target contains it.
pub open spec fn query_matches(target: Seq<char>, fs: Seq<char>, q: Seq<char>) -> bool {
    target == q || fs == q || contains_seq(target, q)
}

/// The first of the first `n` mounts, given by their lowercased target and
/// filesystem, that the lowercased query `q` matches.
pub open spec fn first_match(lowered: Seq<(Seq<char>, Seq<char>)>, q: Seq<char>, n: nat) -> Option<int>
    decreases n,
{
    if n == 0 {
        None
    } else {
        match first_match(lowered, q, (n - 1) as nat) {
            Some(i) => Some(i),
            None => if query_matches(lowered[n - 1].0, lowered[n - 1].1, q) {
                Some(n - 1)
            } else {
                None
            },
        }
    }
}

proof fn lemma_first_match_stable(lowered: Seq<(Seq<char>, Seq<char>)>, q: Seq<char>, k: nat, n: nat)
    requires
        k <= n,
        first_match(lowered, q, k) is Some,
    ensures
        first_match(lowered, q, n) == first_match(lowered, q, k),
    decreases n - k,
{
    if k < n {
        lemma_first_match_stable(lowered, q, k, (n - 1) as nat);
    }
}

/// What kind of mount `m` is, by its filesystem.
pub open spec fn mount_title(m: MountView) -> Seq<char> {
    let fs = m.filesystem@;
    if fs == "tmpfs"@ {
        "Temporary memory filesystem"@
    } else if fs == "overlay"@ {
        "Docker overlay"@
    } else if fs == "devfs"@ || fs == "devtmpfs"@ {
        "Device filesystem"@
    } else {
        match m.hidden_reason {
            Some(r) => r@,
            None => "Derived mount"@,
        }
    }
}

/// The explanation of the hidden mount `m`.
pub open spec fn mount_explanation(m: MountView) -> Seq<char> {
    let reason = match m.hidden_reason {
        Some(r) => r@,
        None => "derived mount"@,
    };
    let backing = match m.backing_storage_id {
        Some(b) => b@,
        None => "memory or system storage"@,
    };
    mount_title(m) + "\n\nType\n  "@ + reason + "\n\nBacked by\n  "@ + backing
        + "\n\nIndependent disk\n  No\n\nWhy it exists\n  This mount is provided by the operating system.\n\nDisk usage\n  Its capacity is not counted as an additional disk.\n"@
}

/// The explanation of `tmpfs` when no hidden mount matches it.
pub open spec fn tmpfs_explanation() -> Seq<char> {
    "Temporary memory filesystem\n\nIndependent disk\n  No\n\nWhy it exists\n  tmpfs stores temporary data in memory and is commonly mounted by Linux.\n\nDisk usage\n  Its capacity is not counted as an additional disk.\n"@
}

/// The answer to the query `q`, lowercased `ql`, about the hidden mounts
/// `ms`, lowercased `lowered`: the explanation of the first mount it
/// matches; else that of tmpfs when it asks for tmpfs; else the query back,
/// unmatched.
pub open spec fn explanation(
    ms: Seq<MountView>,
    lowered: Seq<(Seq<char>, Seq<char>)>,
    q: Seq<char>,
    ql: Seq<char>,
) -> Result<Seq<char>, Seq<char>> {
    match first_match(lowered, ql, ms.len()) {
        Some(i) => Ok(mount_explanation(ms[i])),
        None => if ql == "tmpfs"@ {
            Ok(tmpfs_explanation())
        } else {
            Err(q)
        },
    }
}

/// The hidden mounts `ms` by their lowercased target and filesystem.
pub open spec fn lowered_mounts(ms: Seq<MountView>) -> Seq<(Seq<char>, Seq<char>)> {
    Seq::new(ms.len(), |i: int| (lowercase(ms[i].target@), lowercase(ms[i].filesystem@)))
}

/// The pairs of strings `v` by their views.
pub open spec fn pair_views(v: Seq<(String, String)>) -> Seq<(Seq<char>, Seq<char>)> {
    Seq::new(v.len(), |i: int| (v[i].0@, v[i].1@))
}

fn explain_mount(m: &MountView) -> (r: String)
    ensures
        r@ == mount_explanation(*m),
{
    let mut out: Vec<char> = Vec::new();
    let fs = m.filesystem.as_str();
    if str_is(fs, "tmpfs") {
        push_str(&mut out, "Temporary memory filesystem");
    } else if str_is(fs, "overlay") {
        push_str(&mut out, "Docker overlay");
    } else if str_is(fs, "devfs") || str_is(fs, "devtmpfs") {
        push_str(&mut out, "Device filesystem");
    } else {
        match &m.hidden_reason {
            Some(r) => push_str(&mut out, r.as_str()),
            None => push_str(&mut out, "Derived mount"),
        }
    }
    push_str(&mut out, "\n\nType\n  ");
    match &m.hidden_reason {
        Some(r) => push_str(&mut out, r.as_str()),
        None => push_str(&mut out, "derived mount"),
    }
    push_str(&mut out, "\n\nBacked by\n  ");
    match &m.backing_storage_id {
        Some(b) => push_str(&mut out, b.as_str()),
        None => push_str(&mut out, "memory or system storage"),
    }
    push_str(
        &mut out,
        "\n\nIndependent disk\n  No\n\nWhy it exists\n  This mount is provided by the operating system.\n\nDisk usage\n  Its capacity is not counted as an additional disk.\n",
    );
    assert(out@ =~= mount_explanation(*m));
    string_of(&out)
}

/// The answer to the query `q` about the hidden mounts of `r`, given the
/// query lowercased as `ql` and each hidden mount's target and filesystem
/// lowercased in `lowered`.
pub fn render_lowered(r: &StorageReport, q: &str, ql: &str, lowered: &Vec<(String, String)>) -> (res: Result<String, ExplainError>)
    requires
        lowered@.len() == r.hidden_mounts@.len(),
    ensures
        match res {
            Ok(s) => explanation(r.hidden_mounts@, pair_views(lowered@), q@, ql@) == Ok::<Seq<char>, Seq<char>>(s@),
            Err(ExplainError::NoMatch(x)) => explanation(r.hidden_mounts@, pair_views(lowered@), q@, ql@) == Err::<Seq<char>, Seq<char>>(x@),
        },
{
    let ghost lv = pair_views(lowered@);
    let qc = chars_of(ql);
    let ms = &r.hidden_mounts;
    let mut i: usize = 0;
    while i < ms.len()
        invariant
            i <= ms@.len(),
            ms == &r.hidden_mounts,
            lowered@.len() == ms@.len(),
            lv == pair_views(lowered@),
            qc@ == ql@,
            first_match(lv, ql@, i as nat) is None,
        decreases ms@.len() - i,
    {
        let t = chars_of(lowered[i].0.as_str());
        let f = chars_of(lowered[i].1.as_str());
        let hit = crate::text::chars_eq(&t, &qc) || crate::text::chars_eq(&f, &qc) || contains(&t, &qc);
        assert(lv[i as int] == (lowered@[i as int].0@, lowered@[i as int].1@));
        if hit {
            assert(first_match(lv, ql@, (i + 1) as nat) == Some(i as int));
            proof {
                lemma_first_match_stable(lv, ql@, (i + 1) as nat, ms@.len());
            }
            return Ok(explain_mount(&ms[i]));
        }
        i = i + 1;
    }
    if str_is(ql, "tmpfs") {
        let mut out: Vec<char> = Vec::new();
        push_str(
            &mut out,
            "Temporary memory filesystem\n\nIndependent disk\n  No\n\nWhy it exists\n  tmpfs stores temporary data in memory and is commonly mounted by Linux.\n\nDisk usage\n  Its capacity is not counted as an additional disk.\n",
        );
        return Ok(string_of(&out));
    }
    Err(ExplainError::NoMatch(q.to_owned()))
}

/// The answer to the query `q` about the hidden mounts of `r`, matched
/// without regard to case: the explanation of the first hidden mount whose
/// target or filesystem is the query or whose target contains it; else that
/// of tmpfs when the query is `tmpfs`; else an error naming the query.
pub fn render(r: &StorageReport, q: &str) -> (res: Result<String, ExplainError>)
    ensures
        match res {
            Ok(s) => explanation(r.hidden_mounts@, lowered_mounts(r.hidden_mounts@), q@, lowercase(q@)) == Ok::<Seq<char>, Seq<char>>(s@),
            Err(ExplainError::NoMatch(x)) => explanation(r.hidden_mounts@, lowered_mounts(r.hidden_mounts@), q@, lowercase(q@)) == Err::<Seq<char>, Seq<char>>(x@),
        },
{
    let ql = to_lowercase(q);
    let ms = &r.hidden_mounts;
    let mut lowered: Vec<(String, String)> = Vec::new();
    let mut i: usize = 0;
    while i < ms.len()
        invariant
            i <= ms@.len(),
            ms == &r.hidden_mounts,
            lowered@.len() == i,
            forall|k: int| 0 <= k < i ==> pair_views(lowered@)[k] == #[trigger] lowered_mounts(ms@)[k],
        decreases ms@.len() - i,
    {
        let t = to_lowercase(ms[i].target.as_str());
        let f = to_lowercase(ms[i].filesystem.as_str());
        lowered.push((t, f));
        i = i + 1;
    }
    assert(pair_views(lowered@) =~= lowered_mounts(ms@));
    render_lowered(r, q, ql.as_str(), &lowered)
}

proof fn lemma_first_match_found(lowered: Seq<(Seq<char>, Seq<char>)>, q: Seq<char>, k: int, n: nat)
    requires
        0 <= k < n,
        query_matches(lowered[k].0, lowered[k].1, q),
    ensures
        first_match(lowered, q, n) matches Some(i) && i <= k,
    decreases n,
{
    if n - 1 > k {
        lemma_first_match_found(lowered, q, k, (n - 1) as nat);
    } else {
        if first_match(lowered, q, (n - 1) as nat) is Some {
            lemma_first_match_bounded(lowered, q, (n - 1) as nat);
        }
    }
}

proof fn lemma_first_match_bounded(lowered: Seq<(Seq<char>, Seq<char>)>, q: Seq<char>, n: nat)
    ensures
        first_match(lowered, q, n) matches Some(i) ==> 0 <= i < n,
    decreases n,
{
    if n > 0 {
        lemma_first_match_bounded(lowered, q, (n - 1) as nat);
    }
}

/// Every hidden mount can be explained: asking about its target, or about
/// its filesystem, gives the explanation of that mount or of one listed
/// before it that the query matches too.
pub proof fn lemma_hidden_mounts_explained(ms: Seq<MountView>, k: int)
    requires
        0 <= k < ms.len(),
    ensures
        explanation(ms, lowered_mounts(ms), ms[k].target@, lowercase(ms[k].target@)) is Ok,
        explanation(ms, lowered_mounts(ms), ms[k].filesystem@, lowercase(ms[k].filesystem@)) is Ok,
{
    let lw = lowered_mounts(ms);
    assert(lw[k] == (lowercase(ms[k].target@), lowercase(ms[k].filesystem@)));
    lemma_first_match_found(lw, lowercase(ms[k].target@), k, ms.len());
    lemma_first_match_found(lw, lowercase(ms[k].filesystem@), k, ms.len());
}

/// The explanation of a hidden mount opens with a title by its filesystem,
/// followed by its type: a devtmpfs or devfs mount is titled "Device
/// filesystem", a tmpfs mount "Temporary memory filesystem" and an overlay
/// "Docker overlay"; after the title come a blank line, `Type` and, indented,
/// the mount's hidden reason.
pub proof fn lemma_explanation_titles(m: MountView)
    ensures
        (m.filesystem@ == "devtmpfs"@ || m.filesystem@ == "devfs"@) ==> "Device filesystem\n\nType\n  "@.is_prefix_of(
            mount_explanation(m),
        ),
        m.filesystem@ == "tmpfs"@ ==> "Temporary memory filesystem\n\nType\n  "@.is_prefix_of(mount_explanation(m)),
        m.filesystem@ == "overlay"@ ==> "Docker overlay\n\nType\n  "@.is_prefix_of(mount_explanation(m)),
        m.hidden_reason matches Some(r) ==> ({
            let head = mount_title(m) + "\n\nType\n  "@;
            (head + r@).is_prefix_of(mount_explanation(m))
        }),
{
    reveal_strlit("devtmpfs");
    reveal_strlit("devfs");
    reveal_strlit("tmpfs");
    reveal_strlit("overlay");
    reveal_strlit("Device filesystem");
    reveal_strlit("Temporary memory filesystem");
    reveal_strlit("Docker overlay");
    reveal_strlit("\n\nType\n  ");
    reveal_strlit("Device filesystem\n\nType\n  ");
    reveal_strlit("Temporary memory filesystem\n\nType\n  ");
    reveal_strlit("Docker overlay\n\nType\n  ");
    assert("devtmpfs"@.len() == 8 && "tmpfs"@.len() == 5 && "overlay"@.len() == 7 && "devfs"@.len() == 5);
    assert("devfs"@[0] == 'd' && "tmpfs"@[0] == 't');
    let e = mount_explanation(m);
    let head = mount_title(m) + "\n\nType\n  "@;
    assert(e.subrange(0, head.len() as int) =~= head);
    if m.filesystem@ == "devtmpfs"@ || m.filesystem@ == "devfs"@ {
        assert(mount_title(m) == "Device filesystem"@);
        assert(head =~= "Device filesystem\n\nType\n  "@);
    }
    if m.filesystem@ == "tmpfs"@ {
        assert(mount_title(m) == "Temporary memory filesystem"@);
        assert(head =~= "Temporary memory filesystem\n\nType\n  "@);
    }
    if m.filesystem@ == "overlay"@ {
        assert(m.filesystem@ != "tmpfs"@);
        assert(mount_title(m) == "Docker overlay"@);
        assert(head =~= "Docker overlay\n\nType\n  "@);
    }
    if let Some(r) = m.hidden_reason {
        assert(e.subrange(0, (head + r@).len() as int) =~= head + r@);
    }
}

} // verus!
