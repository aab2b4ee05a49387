//! Linux mount discovery: the lines of `/proc/self/mountinfo` read into raw
//! mounts, and `statvfs` figures turned into capacities.
use vstd::prelude::*;
use crate::lex::{
    NumberError, lines, lines_exec, parse_unsigned, parse_unsigned_exec, split_once,
    split_once_exec, words, words_exec,
};
use crate::path::{path_starts_with, path_starts_with_exec, split_on, split_on_exec, views};
use crate::platform::{Discovery, FilesystemStats, RawMount};
use crate::text::{chars_of, replace_all, replace_all_exec, string_of};

verus! {

/// Why `/proc/self/mountinfo` could not be read.
#[derive(Debug, Clone, Copy, PartialEq, Eq, Structural)]
pub enum MountinfoError {
    /// The line with this number has no ` - ` separator.
    MissingSeparator(usize),
    /// The line with this number has too few fields.
    Incomplete(usize),
    /// A mount id is not a number.
    InvalidNumber(NumberError),
}

/// `s` with the octal escapes of mountinfo (space, tab, newline, backslash)
/// decoded, in that order.
pub open spec fn decode_spec(s: Seq<char>) -> Seq<char> {
    let s1 = replace_all(s, "\\040"@, " "@);
    let s2 = replace_all(s1, "\\011"@, "\t"@);
    let s3 = replace_all(s2, "\\012"@, "\n"@);
    replace_all(s3, "\\134"@, "\\"@)
}

fn decode(s: &[char]) -> (r: Vec<char>)
    ensures
        r@ == decode_spec(s@),
{
    proof {
        reveal_strlit("\\040");
        reveal_strlit("\\011");
        reveal_strlit("\\012");
        reveal_strlit("\\134");
    }
    let s1 = replace_all_exec(s, &chars_of("\\040"), &chars_of(" "));
    let s2 = replace_all_exec(&s1, &chars_of("\\011"), &chars_of("\t"));
    let s3 = replace_all_exec(&s2, &chars_of("\\012"), &chars_of("\n"));
    replace_all_exec(&s3, &chars_of("\\134"), &chars_of("\\"))
}

/// What is wrong with mountinfo line `line`, numbered `lineno`, if anything.
pub open spec fn line_error(line: Seq<char>, lineno: usize) -> Option<MountinfoError> {
    match split_once(line, " - "@) {
        None => Some(MountinfoError::MissingSeparator(lineno)),
        Some((l, r)) => {
            let a = words(l);
            let b = words(r);
            if a.len() < 6 || b.len() < 3 {
                Some(MountinfoError::Incomplete(lineno))
            } else {
                match parse_unsigned(a[0], u64::MAX as nat) {
                    Err(e) => Some(MountinfoError::InvalidNumber(e)),
                    Ok(_) => match parse_unsigned(a[1], u64::MAX as nat) {
                        Err(e) => Some(MountinfoError::InvalidNumber(e)),
                        Ok(_) => None,
                    },
                }
            }
        },
    }
}

/// The views of a sequence of strings.
pub open spec fn string_views(v: Seq<String>) -> Seq<Seq<char>> {
    v.map_values(|x: String| x@)
}

/// `m` is the mount that the well-formed mountinfo line `line` describes.
pub open spec fn is_mount_of_line(m: RawMount, line: Seq<char>) -> bool {
    let (l, r) = split_once(line, " - "@)->0;
    let a = words(l);
    let b = words(r);
    &&& parse_unsigned(a[0], u64::MAX as nat) == Ok::<nat, NumberError>(m.mount_id as nat)
    &&& parse_unsigned(a[1], u64::MAX as nat) == Ok::<nat, NumberError>(m.parent_id as nat)
    &&& m.device_id@ == a[2]
    &&& m.root@ == decode_spec(a[3])
    &&& m.target@ == decode_spec(a[4])
    &&& string_views(m.mount_options@) == split_on(a[5], ',')
    &&& m.filesystem@ == b[0]
    &&& m.source@ == decode_spec(b[1])
    &&& string_views(m.super_options@) == split_on(b[2], ',')
    &&& m.stats is None
    &&& m.stats_error is None
    &&& m.backing_id is None
    &&& m.volume_name is None
    &&& !m.removable
}

fn strings_of(v: &Vec<Vec<char>>) -> (r: Vec<String>)
    ensures
        string_views(r@) == views(v@),
{
    let mut out: Vec<String> = Vec::new();
    let mut i: usize = 0;
    while i < v.len()
        invariant
            i <= v.len(),
            string_views(out@) == views(v@).take(i as int),
        decreases v.len() - i,
    {
        let ghost before = string_views(out@);
        out.push(string_of(&v[i]));
        assert(string_views(out@) =~= before.push(v@[i as int]@));
        i = i + 1;
        assert(views(v@).take(i as int) =~= views(v@).take(i - 1).push(v@[i - 1]@));
    }
    assert(views(v@).take(v.len() as int) =~= views(v@));
    out
}

fn parse_line(line: &Vec<char>, lineno: usize) -> (r: Result<RawMount, MountinfoError>)
    ensures
        match r {
            Ok(m) => line_error(line@, lineno) is None && is_mount_of_line(m, line@),
            Err(e) => line_error(line@, lineno) == Some(e),
        },
{
    proof {
        reveal_strlit(" - ");
    }
    let sep = chars_of(" - ");
    let (l, r) = match split_once_exec(line, &sep) {
        Some(parts) => parts,
        None => return Err(MountinfoError::MissingSeparator(lineno)),
    };
    let a = words_exec(&l);
    let b = words_exec(&r);
    if a.len() < 6 || b.len() < 3 {
        return Err(MountinfoError::Incomplete(lineno));
    }
    assert(views(a@)[0] == a@[0]@ && views(a@)[1] == a@[1]@);
    let mount_id = match parse_unsigned_exec(&a[0], u64::MAX) {
        Ok(v) => v,
        Err(e) => return Err(MountinfoError::InvalidNumber(e)),
    };
    let parent_id = match parse_unsigned_exec(&a[1], u64::MAX) {
        Ok(v) => v,
        Err(e) => return Err(MountinfoError::InvalidNumber(e)),
    };
    assert(views(a@)[2] == a@[2]@ && views(a@)[3] == a@[3]@ && views(a@)[4] == a@[4]@ && views(a@)[5] == a@[5]@);
    assert(views(b@)[0] == b@[0]@ && views(b@)[1] == b@[1]@ && views(b@)[2] == b@[2]@);
    let opts = split_on_exec(&a[5], ',');
    let sopts = split_on_exec(&b[2], ',');
    Ok(RawMount {
        mount_id,
        parent_id,
        device_id: string_of(&a[2]),
        root: string_of(&decode(&a[3])),
        target: string_of(&decode(&a[4])),
        mount_options: strings_of(&opts),
        filesystem: string_of(&b[0]),
        source: string_of(&decode(&b[1])),
        super_options: strings_of(&sopts),
        stats: None,
        stats_error: None,
        backing_id: None,
        volume_name: None,
        removable: false,
    })
}

/// The mounts that the mountinfo text `input` lists, one per line; the
/// first malformed line is reported, numbered from 1.
pub fn parse_mountinfo(input: &str) -> (r: Result<Vec<RawMount>, MountinfoError>)
    ensures
        match r {
            Ok(ms) => {
                &&& ms@.len() == lines(input@).len()
                &&& forall|k: int| 0 <= k < ms@.len() ==> line_error(#[trigger] lines(input@)[k], (k + 1) as usize) is None
                &&& forall|k: int| 0 <= k < ms@.len() ==> is_mount_of_line(#[trigger] ms@[k], lines(input@)[k])
            },
            Err(e) => exists|k: int| {
                &&& 0 <= k < lines(input@).len()
                &&& forall|j: int| 0 <= j < k ==> line_error(#[trigger] lines(input@)[j], (j + 1) as usize) is None
                &&& line_error(#[trigger] lines(input@)[k], (k + 1) as usize) == Some(e)
            },
        },
{
    let text = chars_of(input);
    let ls = lines_exec(&text);
    let ghost lv = views(ls@);
    let mut out: Vec<RawMount> = Vec::new();
    let mut i: usize = 0;
    while i < ls.len()
        invariant
            i <= ls.len(),
            lv == views(ls@),
            lv == lines(input@),
            out@.len() == i,
            forall|k: int| 0 <= k < i ==> line_error(#[trigger] lv[k], (k + 1) as usize) is None,
            forall|k: int| 0 <= k < i ==> is_mount_of_line(#[trigger] out@[k], lv[k]),
        decreases ls.len() - i,
    {
        assert(lv[i as int] == ls@[i as int]@);
        match parse_line(&ls[i], i + 1) {
            Ok(m) => {
                out.push(m);
            },
            Err(e) => {
                assert(line_error(lv[i as int], (i + 1) as usize) == Some(e));
                return Err(e);
            },
        }
        i = i + 1;
    }
    Ok(out)
}

/// Capacities from `statvfs` figures: the fragment size is the block size
/// unless it is zero; products saturate.
pub open spec fn stats_spec(blocks: u64, bfree: u64, bavail: u64, bsize: u64, frsize: u64) -> FilesystemStats {
    let bs = if frsize == 0 { bsize } else { frsize };
    let total = sat_mul(blocks, bs);
    let free = sat_mul(bfree, bs);
    FilesystemStats {
        total_bytes: total,
        used_bytes: if total >= free { (total - free) as u64 } else { 0 },
        available_bytes: sat_mul(bavail, bs),
    }
}

/// `a * b`, or the largest `u64` when the product does not fit.
pub open spec fn sat_mul(a: u64, b: u64) -> u64 {
    if a * b <= u64::MAX {
        (a * b) as u64
    } else {
        u64::MAX
    }
}

fn sat_mul_exec(a: u64, b: u64) -> (r: u64)
    ensures
        r == sat_mul(a, b),
{
    match a.checked_mul(b) {
        Some(v) => v,
        None => u64::MAX,
    }
}

/// The capacities of a filesystem from its `statvfs` figures.
pub fn filesystem_stats(blocks: u64, bfree: u64, bavail: u64, bsize: u64, frsize: u64) -> (r: FilesystemStats)
    ensures
        r == stats_spec(blocks, bfree, bavail, bsize, frsize),
{
    let bs = if frsize == 0 { bsize } else { frsize };
    let total = sat_mul_exec(blocks, bs);
    let free = sat_mul_exec(bfree, bs);
    FilesystemStats {
        total_bytes: total,
        used_bytes: total.saturating_sub(free),
        available_bytes: sat_mul_exec(bavail, bs),
    }
}

/// The mount at `target` is on removable media.
pub open spec fn is_removable_target(target: Seq<char>) -> bool {
    path_starts_with(target, "/media"@) || path_starts_with(target, "/run/media"@)
}

/// `m` is `old` with its capacity, or the error met reading it, its backing
/// id (its device id) and whether it is removable.
pub open spec fn is_enriched(m: RawMount, old: RawMount, stat: Result<FilesystemStats, String>) -> bool {
    &&& m.mount_id == old.mount_id
    &&& m.parent_id == old.parent_id
    &&& m.device_id == old.device_id
    &&& m.root == old.root
    &&& m.target == old.target
    &&& m.mount_options == old.mount_options
    &&& m.filesystem == old.filesystem
    &&& m.source == old.source
    &&& m.super_options == old.super_options
    &&& m.volume_name == old.volume_name
    &&& match stat {
        Ok(s) => m.stats == Some(s) && m.stats_error == old.stats_error,
        Err(e) => m.stats == old.stats && crate::text::opt_view(m.stats_error) == Some(e@),
    }
    &&& crate::text::opt_view(m.backing_id) == Some(old.device_id@)
    &&& m.removable == is_removable_target(old.target@)
}

/// `d` is the discovery made of the parsed `mounts` and of what reading each
/// one's capacity gave, `stats`: each mount enriched, in order, and no
/// warning.
pub open spec fn is_discovery_of(d: Discovery, mounts: Seq<RawMount>, stats: Seq<Result<FilesystemStats, String>>) -> bool {
    &&& d.mounts@.len() == mounts.len()
    &&& forall|i: int| 0 <= i < mounts.len() ==> is_enriched(#[trigger] d.mounts@[i], mounts[i], stats[i])
    &&& d.warnings@.len() == 0
}

/// The discovery made of the parsed mounts and what reading each one's
/// capacity gave.
pub fn discover(mounts: Vec<RawMount>, stats: Vec<Result<FilesystemStats, String>>) -> (d: Discovery)
    requires
        mounts@.len() == stats@.len(),
    ensures
        is_discovery_of(d, mounts@, stats@),
{
    let ghost old_mounts = mounts@;
    let ghost old_stats = stats@;
    let mut rest = mounts;
    let mut results = stats;
    let mut out: Vec<RawMount> = Vec::new();
    let media = chars_of("/media");
    let run_media = chars_of("/run/media");
    while rest.len() > 0
        invariant
            rest@.len() == results@.len(),
            old_stats.len() == old_mounts.len(),
            out@.len() + rest@.len() == old_mounts.len(),
            rest@ == old_mounts.skip(out@.len() as int),
            results@ == old_stats.skip(out@.len() as int),
            media@ == "/media"@,
            run_media@ == "/run/media"@,
            forall|i: int| 0 <= i < out@.len() ==> is_enriched(#[trigger] out@[i], old_mounts[i], old_stats[i]),
        decreases rest.len(),
    {
        let ghost k = out@.len();
        let mut m = rest.remove(0);
        let st = results.remove(0);
        assert(m == old_mounts[k as int]);
        assert(st == old_stats[k as int]);
        match st {
            Ok(s) => {
                m.stats = Some(s);
            },
            Err(e) => {
                m.stats_error = Some(e);
            },
        }
        m.backing_id = Some(m.device_id.clone());
        let target = chars_of(m.target.as_str());
        m.removable = path_starts_with_exec(&target, &media) || path_starts_with_exec(&target, &run_media);
        out.push(m);
        assert(rest@ =~= old_mounts.skip(out@.len() as int));
        assert(results@ =~= old_stats.skip(out@.len() as int));
    }
    Discovery { mounts: out, warnings: Vec::new() }
}

} // verus!
