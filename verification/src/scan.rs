//! Sizes of well-known locations, placed on the volumes they live on.
use vstd::prelude::*;
use crate::classify::Rule;
use crate::model::{Confidence, Estimate, Reclaimability, SemanticCategory, StorageReport, StorageVolume};
use crate::path::{component_count, component_count_exec, path_starts_with, path_starts_with_exec};
use crate::text::chars_of;

verus! {

/// `path` lies below the representative mount of `v`, component by component.
pub open spec fn on_volume(v: StorageVolume, path: Seq<char>) -> bool {
    path_starts_with(path, v.representative_mount@)
}

/// How many components the representative mount of `v` has.
pub open spec fn mount_depth(v: StorageVolume) -> nat {
    component_count(v.representative_mount@)
}

/// Among the first `n` volumes, the one `path` lies on whose mount has the
/// most components; the last of several such.
pub open spec fn owner_upto(vs: Seq<StorageVolume>, path: Seq<char>, n: nat) -> Option<int>
    decreases n,
{
    if n == 0 {
        None
    } else {
        let prev = owner_upto(vs, path, (n - 1) as nat);
        let k = n - 1;
        if on_volume(vs[k], path) && match prev {
            Some(j) => mount_depth(vs[j]) <= mount_depth(vs[k]),
            None => true,
        } {
            Some(k)
        } else {
            prev
        }
    }
}

/// The volume `path` belongs to.
pub open spec fn owner(vs: Seq<StorageVolume>, path: Seq<char>) -> Option<int> {
    owner_upto(vs, path, vs.len())
}

/// The owner is the volume with the longest mount prefix of the path.
pub open spec fn is_longest_prefix_owner(vs: Seq<StorageVolume>, path: Seq<char>, n: nat, o: Option<int>) -> bool {
    match o {
        None => forall|k: int| 0 <= k < n ==> !on_volume(#[trigger] vs[k], path),
        Some(i) => {
            &&& 0 <= i < n
            &&& on_volume(vs[i], path)
            &&& forall|k: int| 0 <= k < n && on_volume(#[trigger] vs[k], path) ==> mount_depth(vs[k]) <= mount_depth(vs[i])
            &&& forall|k: int| i < k < n && on_volume(#[trigger] vs[k], path) ==> mount_depth(vs[k]) < mount_depth(vs[i])
        },
    }
}

proof fn lemma_owner_upto(vs: Seq<StorageVolume>, path: Seq<char>, n: nat)
    requires
        n <= vs.len(),
    ensures
        is_longest_prefix_owner(vs, path, n, owner_upto(vs, path, n)),
    decreases n,
{
    if n > 0 {
        lemma_owner_upto(vs, path, (n - 1) as nat);
    }
}

/// A path belongs to the volume whose representative mount is its longest
/// prefix, the last such volume where several are equally long, and to no
/// volume when no representative mount is a prefix of it.
pub proof fn lemma_owner_is_longest_prefix(vs: Seq<StorageVolume>, path: Seq<char>)
    ensures
        is_longest_prefix_owner(vs, path, vs.len(), owner(vs, path)),
{
    lemma_owner_upto(vs, path, vs.len());
}

proof fn lemma_owner_same_mounts(a: Seq<StorageVolume>, b: Seq<StorageVolume>, path: Seq<char>, n: nat)
    requires
        n <= a.len(),
        a.len() == b.len(),
        forall|k: int| 0 <= k < a.len() ==> (#[trigger] a[k]).representative_mount == b[k].representative_mount,
    ensures
        owner_upto(a, path, n) == owner_upto(b, path, n),
    decreases n,
{
    if n > 0 {
        lemma_owner_same_mounts(a, b, path, (n - 1) as nat);
        let k = n - 1;
        assert(a[k].representative_mount == b[k].representative_mount);
        let prev = owner_upto(a, path, (n - 1) as nat);
        if let Some(j) = prev {
            lemma_owner_upto(a, path, (n - 1) as nat);
            assert(a[j].representative_mount == b[j].representative_mount);
        }
    }
}

/// The index of the volume that `path` lies on: the one whose
/// representative mount is the longest prefix of `path`.
pub fn owning_volume_index(report: &StorageReport, path: &str) -> (r: Option<usize>)
    ensures
        match r {
            Some(i) => owner(report.storage@, path@) == Some(i as int),
            None => owner(report.storage@, path@) is None,
        },
{
    let p = chars_of(path);
    let vs = &report.storage;
    let mut best: Option<usize> = None;
    let mut best_depth: usize = 0;
    let mut k: usize = 0;
    while k < vs.len()
        invariant
            k <= vs.len(),
            vs == &report.storage,
            p@ == path@,
            match best {
                Some(i) => owner_upto(vs@, p@, k as nat) == Some(i as int) && 0 <= i < k && best_depth == mount_depth(vs@[i as int]),
                None => owner_upto(vs@, p@, k as nat) is None,
            },
        decreases vs.len() - k,
    {
        let m = chars_of(vs[k].representative_mount.as_str());
        if path_starts_with_exec(&p, &m) {
            let d = component_count_exec(&m);
            let better = match best {
                Some(_) => best_depth <= d,
                None => true,
            };
            if better {
                best = Some(k);
                best_depth = d;
            }
        }
        k = k + 1;
    }
    best
}

/// `c` is the category that `rule` adds for its location, measured as `e`.
pub open spec fn is_rule_category(c: SemanticCategory, rule: Rule, e: Estimate) -> bool {
    &&& c.name@ == rule.name@
    &&& c.path@.len() == 2
    &&& c.path@[0]@ == rule.category@
    &&& c.path@[1]@ == rule.name@
    &&& c.estimate == e
    &&& c.confidence == rule.confidence
    &&& c.reclaimability == rule.reclaimability
    &&& c.children@.len() == 0
}

/// `c` is what remains of a volume besides its named categories: `bytes`, of
/// unknown kind.
pub open spec fn is_other_category(c: SemanticCategory, bytes: u64) -> bool {
    &&& c.name@ == "Other"@
    &&& c.path@.len() == 1
    &&& c.path@[0]@ == "Other"@
    &&& c.estimate == (Estimate { bytes: bytes, incomplete: false, inaccessible_paths: 0 })
    &&& c.confidence == Confidence::Unknown
    &&& c.reclaimability == Reclaimability::Unknown
    &&& c.children@.len() == 0
}

/// Among the first `n` rules, those whose location was measured and lies on
/// volume `i`, in order.
pub open spec fn assigned_upto(
    vs: Seq<StorageVolume>,
    rules: Seq<Rule>,
    found: Seq<Option<Estimate>>,
    i: int,
    n: nat,
) -> Seq<int>
    decreases n,
{
    if n == 0 {
        Seq::empty()
    } else {
        let prev = assigned_upto(vs, rules, found, i, (n - 1) as nat);
        let k = n - 1;
        if found[k] is Some && owner(vs, rules[k].path@) == Some(i) {
            prev.push(k)
        } else {
            prev
        }
    }
}

/// The rules whose measured location lies on volume `i`, in order.
pub open spec fn assigned(vs: Seq<StorageVolume>, rules: Seq<Rule>, found: Seq<Option<Estimate>>, i: int) -> Seq<int> {
    assigned_upto(vs, rules, found, i, rules.len())
}

/// The bytes of the categories `cs` together.
pub open spec fn category_bytes(cs: Seq<SemanticCategory>) -> nat
    decreases cs.len(),
{
    if cs.len() == 0 {
        0
    } else {
        category_bytes(cs.drop_last()) + cs.last().estimate.bytes as nat
    }
}

/// The measured bytes of the rules `ks` together.
pub open spec fn measured_bytes(found: Seq<Option<Estimate>>, ks: Seq<int>) -> nat
    decreases ks.len(),
{
    if ks.len() == 0 {
        0
    } else {
        measured_bytes(found, ks.drop_last()) + found[ks.last()]->0.bytes as nat
    }
}

/// `cs` is `base` followed by the categories of the rules `ks`.
pub open spec fn extends_with_rules(
    cs: Seq<SemanticCategory>,
    base: Seq<SemanticCategory>,
    rules: Seq<Rule>,
    found: Seq<Option<Estimate>>,
    ks: Seq<int>,
) -> bool {
    &&& cs.len() == base.len() + ks.len()
    &&& forall|j: int| 0 <= j < base.len() ==> #[trigger] cs[j] == base[j]
    &&& forall|t: int| 0 <= t < ks.len() ==> is_rule_category(#[trigger] cs[base.len() + t], rules[ks[t]], found[ks[t]]->0)
}

/// `a` and `b` are the same volume, but maybe for their categories.
pub open spec fn same_but_categories(a: StorageVolume, b: StorageVolume) -> bool {
    &&& a.id == b.id
    &&& a.name == b.name
    &&& a.filesystem == b.filesystem
    &&& a.representative_mount == b.representative_mount
    &&& a.total_bytes == b.total_bytes
    &&& a.used_bytes == b.used_bytes
    &&& a.available_bytes == b.available_bytes
    &&& a.reserved_bytes == b.reserved_bytes
    &&& a.used_percent == b.used_percent
    &&& a.physical == b.physical
    &&& a.removable == b.removable
    &&& a.mounts == b.mounts
}

/// `a` and `b` are the same report, but maybe for the categories of their
/// volumes.
pub open spec fn same_but_storage(a: StorageReport, b: StorageReport) -> bool {
    &&& a.schema_version == b.schema_version
    &&& a.hidden_mounts == b.hidden_mounts
    &&& a.mount_count == b.mount_count
    &&& a.independent_storage_count == b.independent_storage_count
    &&& a.inaccessible_paths == b.inaccessible_paths
    &&& a.warnings == b.warnings
    &&& a.storage@.len() == b.storage@.len()
    &&& forall|i: int| 0 <= i < a.storage@.len() ==> same_but_categories(#[trigger] a.storage@[i], b.storage@[i])
}

/// What the sizes of a volume's categories add up to fits in 64 bits, for
/// every volume, once the measured locations are placed on them.
pub open spec fn scan_fits(vs: Seq<StorageVolume>, rules: Seq<Rule>, found: Seq<Option<Estimate>>) -> bool {
    forall|i: int| 0 <= i < vs.len() ==> category_bytes((#[trigger] vs[i]).categories@) + measured_bytes(found, assigned(vs, rules, found, i)) <= u64::MAX
}

/// What `used` bytes leave besides `named` bytes, and nothing below zero.
pub open spec fn remainder(used: u64, named: nat) -> u64 {
    if named <= used { (used - named) as u64 } else { 0 }
}

/// The categories `cs` of a volume that had `old` before the scan: its
/// former categories, those of the rules `ks`, and, unless that is nothing,
/// what remains of the used bytes.
pub open spec fn is_scanned(
    cs: Seq<SemanticCategory>,
    old: StorageVolume,
    rules: Seq<Rule>,
    found: Seq<Option<Estimate>>,
    ks: Seq<int>,
) -> bool {
    let base = old.categories@;
    let m = base.len() + ks.len();
    if m == 0 {
        cs.len() == 0
    } else {
        &&& cs.len() == m + 1
        &&& extends_with_rules(cs.take(m as int), base, rules, found, ks)
        &&& is_other_category(cs[m as int], remainder(old.used_bytes, category_bytes(base) + measured_bytes(found, ks)))
    }
}

proof fn lemma_category_bytes_extends(
    cs: Seq<SemanticCategory>,
    base: Seq<SemanticCategory>,
    rules: Seq<Rule>,
    found: Seq<Option<Estimate>>,
    ks: Seq<int>,
)
    requires
        extends_with_rules(cs, base, rules, found, ks),
    ensures
        category_bytes(cs) == category_bytes(base) + measured_bytes(found, ks),
    decreases ks.len(),
{
    if ks.len() == 0 {
        assert(cs =~= base);
    } else {
        let t = (ks.len() - 1) as int;
        assert(cs.last() == cs[base.len() + t]);
        assert(extends_with_rules(cs.drop_last(), base, rules, found, ks.drop_last())) by {
            assert forall|j: int| 0 <= j < base.len() implies #[trigger] cs.drop_last()[j] == base[j] by {
                assert(cs[j] == base[j]);
            }
            assert forall|u: int| 0 <= u < ks.drop_last().len() implies is_rule_category(
                #[trigger] cs.drop_last()[base.len() + u],
                rules[ks.drop_last()[u]],
                found[ks.drop_last()[u]]->0,
            ) by {
                assert(is_rule_category(cs[base.len() + u], rules[ks[u]], found[ks[u]]->0));
            }
        }
        lemma_category_bytes_extends(cs.drop_last(), base, rules, found, ks.drop_last());
    }
}

proof fn lemma_category_bytes_prefix(cs: Seq<SemanticCategory>, j: int)
    requires
        0 <= j <= cs.len(),
    ensures
        category_bytes(cs.take(j)) <= category_bytes(cs),
    decreases cs.len() - j,
{
    if j < cs.len() {
        lemma_category_bytes_prefix(cs, j + 1);
        assert(cs.take(j + 1).drop_last() =~= cs.take(j));
    } else {
        assert(cs.take(j) =~= cs);
    }
}

fn rule_category(rule: &Rule, e: Estimate) -> (c: SemanticCategory)
    ensures
        is_rule_category(c, *rule, e),
{
    let mut path: Vec<String> = Vec::new();
    path.push(rule.category.to_owned());
    path.push(rule.name.to_owned());
    SemanticCategory {
        name: rule.name.to_owned(),
        path: path,
        estimate: e,
        confidence: rule.confidence,
        reclaimability: rule.reclaimability,
        children: Vec::new(),
    }
}

fn other_category(bytes: u64) -> (c: SemanticCategory)
    ensures
        is_other_category(c, bytes),
{
    let mut path: Vec<String> = Vec::new();
    path.push("Other".to_owned());
    SemanticCategory {
        name: "Other".to_owned(),
        path: path,
        estimate: Estimate::exact(bytes),
        confidence: Confidence::Unknown,
        reclaimability: Reclaimability::Unknown,
        children: Vec::new(),
    }
}

fn place_measured(report: &mut StorageReport, rules: &[Rule], found: &[Option<Estimate>])
    requires
        found@.len() == rules@.len(),
    ensures
        same_but_storage(*old(report), *final(report)),
        forall|i: int| 0 <= i < old(report).storage@.len() ==> extends_with_rules(
            (#[trigger] final(report).storage@[i]).categories@,
            old(report).storage@[i].categories@,
            rules@,
            found@,
            assigned(old(report).storage@, rules@, found@, i),
        ),
{
    let ghost old_vs = report.storage@;
    let ghost old_report = *report;
    let mut k: usize = 0;
    while k < rules.len()
        invariant
            k <= rules@.len(),
            found@.len() == rules@.len(),
            old_vs == old_report.storage@,
            same_but_storage(old_report, *report),
            forall|i: int| 0 <= i < old_vs.len() ==> extends_with_rules(
                (#[trigger] report.storage@[i]).categories@,
                old_vs[i].categories@,
                rules@,
                found@,
                assigned_upto(old_vs, rules@, found@, i, k as nat),
            ),
        decreases rules@.len() - k,
    {
        let ghost before = report.storage@;
        proof {
            assert forall|q: int| 0 <= q < old_vs.len() implies (#[trigger] old_vs[q]).representative_mount == before[q].representative_mount by {
                assert(same_but_categories(old_report.storage@[q], report.storage@[q]));
            }
            lemma_owner_same_mounts(old_vs, before, rules@[k as int].path@, old_vs.len());
        }
        if let Some(e) = found[k] {
            let o = owning_volume_index(report, rules[k].path.as_str());
            if let Some(i) = o {
                proof {
                    lemma_owner_is_longest_prefix(report.storage@, rules@[k as int].path@);
                }
                let c = rule_category(&rules[k], e);
                report.storage[i].categories.push(c);
                proof {
                    assert forall|j: int| 0 <= j < old_vs.len() implies extends_with_rules(
                        (#[trigger] report.storage@[j]).categories@,
                        old_vs[j].categories@,
                        rules@,
                        found@,
                        assigned_upto(old_vs, rules@, found@, j, (k + 1) as nat),
                    ) by {
                        let prev = assigned_upto(old_vs, rules@, found@, j, k as nat);
                        if j == i {
                            let cs = report.storage@[j].categories@;
                            let bs = before[j].categories@;
                            assert(cs == bs.push(c));
                            let ks = prev.push(k as int);
                            assert forall|t: int| 0 <= t < ks.len() implies is_rule_category(
                                #[trigger] cs[old_vs[j].categories@.len() + t],
                                rules@[ks[t]],
                                found@[ks[t]]->0,
                            ) by {
                                if t < prev.len() {
                                    assert(cs[old_vs[j].categories@.len() + t] == bs[old_vs[j].categories@.len() + t]);
                                }
                            }
                            assert forall|q: int| 0 <= q < old_vs[j].categories@.len() implies #[trigger] cs[q] == old_vs[j].categories@[q] by {
                                assert(cs[q] == bs[q]);
                            }
                        } else {
                            assert(report.storage@[j] == before[j]);
                        }
                    }
                    assert forall|q: int| 0 <= q < old_report.storage@.len() implies same_but_categories(
                        #[trigger] old_report.storage@[q],
                        report.storage@[q],
                    ) by {
                        if q != i {
                            assert(report.storage@[q] == before[q]);
                        }
                    }
                }
            } else {
                proof {
                    assert forall|j: int| 0 <= j < old_vs.len() implies assigned_upto(old_vs, rules@, found@, j, (k + 1) as nat)
                        == assigned_upto(old_vs, rules@, found@, j, k as nat) by {}
                }
            }
        } else {
            proof {
                assert forall|j: int| 0 <= j < old_vs.len() implies assigned_upto(old_vs, rules@, found@, j, (k + 1) as nat)
                    == assigned_upto(old_vs, rules@, found@, j, k as nat) by {}
            }
        }
        k = k + 1;
    }
}

fn categories_total(cs: &Vec<SemanticCategory>) -> (r: u64)
    requires
        category_bytes(cs@) <= u64::MAX,
    ensures
        r == category_bytes(cs@),
{
    let mut total: u64 = 0;
    let mut j: usize = 0;
    while j < cs.len()
        invariant
            j <= cs@.len(),
            category_bytes(cs@) <= u64::MAX,
            total == category_bytes(cs@.take(j as int)),
        decreases cs@.len() - j,
    {
        proof {
            lemma_category_bytes_prefix(cs@, j + 1);
            assert(cs@.take(j + 1).drop_last() =~= cs@.take(j as int));
        }
        total = total + cs[j].estimate.bytes;
        j = j + 1;
    }
    assert(cs@.take(cs@.len() as int) =~= cs@);
    total
}

fn add_remainders(report: &mut StorageReport)
    requires
        forall|i: int| 0 <= i < old(report).storage@.len() ==> category_bytes((#[trigger] old(report).storage@[i]).categories@) <= u64::MAX,
    ensures
        same_but_storage(*old(report), *final(report)),
        forall|i: int| 0 <= i < old(report).storage@.len() ==> {
            let cs = old(report).storage@[i].categories@;
            let ns = (#[trigger] final(report).storage@[i]).categories@;
            if cs.len() == 0 {
                ns.len() == 0
            } else {
                &&& ns.len() == cs.len() + 1
                &&& ns.take(cs.len() as int) == cs
                &&& is_other_category(ns[cs.len() as int], remainder(old(report).storage@[i].used_bytes, category_bytes(cs)))
            }
        },
{
    let ghost old_report = *report;
    let mut i: usize = 0;
    while i < report.storage.len()
        invariant
            i <= report.storage@.len(),
            same_but_storage(old_report, *report),
            forall|q: int| 0 <= q < old_report.storage@.len() ==> category_bytes((#[trigger] old_report.storage@[q]).categories@) <= u64::MAX,
            forall|q: int| i <= q < report.storage@.len() ==> (#[trigger] report.storage@[q]).categories@ == old_report.storage@[q].categories@,
            forall|q: int| 0 <= q < i ==> {
                let cs = old_report.storage@[q].categories@;
                let ns = (#[trigger] report.storage@[q]).categories@;
                if cs.len() == 0 {
                    ns.len() == 0
                } else {
                    &&& ns.len() == cs.len() + 1
                    &&& ns.take(cs.len() as int) == cs
                    &&& is_other_category(ns[cs.len() as int], remainder(old_report.storage@[q].used_bytes, category_bytes(cs)))
                }
            },
        decreases report.storage@.len() - i,
    {
        let ghost before = report.storage@;
        if report.storage[i].categories.len() > 0 {
            assert(report.storage@[i as int].categories@ == old_report.storage@[i as int].categories@);
            assert(same_but_categories(old_report.storage@[i as int], report.storage@[i as int]));
            let named = categories_total(&report.storage[i].categories);
            let used = report.storage[i].used_bytes;
            let rest: u64 = if named <= used { used - named } else { 0 };
            let c = other_category(rest);
            report.storage[i].categories.push(c);
            proof {
                let cs = old_report.storage@[i as int].categories@;
                assert(report.storage@[i as int].categories@.take(cs.len() as int) =~= cs);
                assert forall|q: int| 0 <= q < report.storage@.len() && q != i implies #[trigger] report.storage@[q] == before[q] by {}
                assert forall|q: int| 0 <= q < old_report.storage@.len() implies same_but_categories(
                    #[trigger] old_report.storage@[q],
                    report.storage@[q],
                ) by {
                    if q != i {
                        assert(report.storage@[q] == before[q]);
                    }
                }
            }
        }
        i = i + 1;
    }
}

/// Places the measured well-known locations on the volumes they live on:
/// `found[k]` is the size measured for `rules[k]`, or `None` where its
/// location does not exist. Each measured location becomes a category of
/// the volume whose mount is its longest prefix, in the order of the rules;
/// each volume that has categories then gets an `Other` category with the
/// used bytes that the others leave.
pub fn scan_report(report: &mut StorageReport, rules: &[Rule], found: &[Option<Estimate>])
    requires
        found@.len() == rules@.len(),
        scan_fits(old(report).storage@, rules@, found@),
    ensures
        same_but_storage(*old(report), *final(report)),
        forall|i: int| 0 <= i < old(report).storage@.len() ==> is_scanned(
            (#[trigger] final(report).storage@[i]).categories@,
            old(report).storage@[i],
            rules@,
            found@,
            assigned(old(report).storage@, rules@, found@, i),
        ),
{
    let ghost r0 = *report;
    place_measured(report, rules, found);
    let ghost r1 = *report;
    proof {
        assert forall|i: int| 0 <= i < r1.storage@.len() implies category_bytes((#[trigger] r1.storage@[i]).categories@) <= u64::MAX by {
            lemma_category_bytes_extends(
                r1.storage@[i].categories@,
                r0.storage@[i].categories@,
                rules@,
                found@,
                assigned(r0.storage@, rules@, found@, i),
            );
            assert(scan_fits(r0.storage@, rules@, found@));
            assert(category_bytes((r0.storage@[i]).categories@) + measured_bytes(found@, assigned(r0.storage@, rules@, found@, i)) <= u64::MAX);
        }
    }
    add_remainders(report);
    proof {
        assert forall|i: int| 0 <= i < r0.storage@.len() implies is_scanned(
            (#[trigger] report.storage@[i]).categories@,
            r0.storage@[i],
            rules@,
            found@,
            assigned(r0.storage@, rules@, found@, i),
        ) by {
            let ks = assigned(r0.storage@, rules@, found@, i);
            let base = r0.storage@[i].categories@;
            let mid = r1.storage@[i].categories@;
            lemma_category_bytes_extends(mid, base, rules@, found@, ks);
            assert(same_but_categories(r0.storage@[i], r1.storage@[i]));
        }
        assert forall|i: int| 0 <= i < r0.storage@.len() implies same_but_categories(
            #[trigger] r0.storage@[i],
            report.storage@[i],
        ) by {
            assert(same_but_categories(r0.storage@[i], r1.storage@[i]));
            assert(same_but_categories(r1.storage@[i], report.storage@[i]));
        }
    }
}

/// What a walk of a directory tree meets at one step.
#[derive(Debug, Clone, Copy, PartialEq, Eq, Structural)]
pub enum WalkEvent {
    /// The time budget ran out.
    OutOfTime,
    /// A directory could not be listed.
    UnlistableDirectory,
    /// The metadata of an entry could not be read.
    UnreadableEntry,
    /// A symbolic link, which is not followed.
    Symlink,
    /// A directory, which is walked in turn.
    Directory,
    /// Any other entry, of the given length in bytes.
    File(u64),
}

/// What the walk does after an event.
#[derive(Debug, Clone, Copy, PartialEq, Eq, Structural)]
pub enum WalkStep {
    /// Stop listing the current directory.
    Stop,
    /// Walk the directory just met, then go on.
    Descend,
    /// Go on with the next entry.
    Continue,
}

/// What a walk of a directory tree has counted so far: the bytes of the
/// files it met, and the paths it could not read or had no time left for.
#[derive(Debug, Clone, Copy, PartialEq, Eq, Structural)]
pub struct WalkTally {
    pub bytes: u64,
    pub inaccessible: usize,
}

/// `event` can be counted on top of `t` without overflow.
pub open spec fn countable(t: WalkTally, event: WalkEvent) -> bool {
    match event {
        WalkEvent::File(len) => t.bytes + len <= u64::MAX,
        WalkEvent::OutOfTime | WalkEvent::UnlistableDirectory | WalkEvent::UnreadableEntry => t.inaccessible < usize::MAX,
        _ => true,
    }
}

/// The tally after `event`: a file adds its length, a path that could not
/// be read or that the budget left out counts as inaccessible, links and
/// directories add nothing of their own.
pub open spec fn tally_after(t: WalkTally, event: WalkEvent) -> WalkTally {
    match event {
        WalkEvent::File(len) => WalkTally { bytes: (t.bytes + len) as u64, inaccessible: t.inaccessible },
        WalkEvent::OutOfTime | WalkEvent::UnlistableDirectory | WalkEvent::UnreadableEntry => WalkTally {
            bytes: t.bytes,
            inaccessible: (t.inaccessible + 1) as usize,
        },
        _ => t,
    }
}

/// What the walk does after `event`: it stops listing a directory when the
/// budget ran out or the directory could not be listed, and descends into
/// directories but not into links.
pub open spec fn step_after(event: WalkEvent) -> WalkStep {
    match event {
        WalkEvent::OutOfTime | WalkEvent::UnlistableDirectory => WalkStep::Stop,
        WalkEvent::Directory => WalkStep::Descend,
        _ => WalkStep::Continue,
    }
}

/// The estimate a walk yields: exact when every path could be read in
/// time, a lower bound otherwise.
pub open spec fn tally_estimate(t: WalkTally) -> Estimate {
    if t.inaccessible == 0 {
        Estimate { bytes: t.bytes, incomplete: false, inaccessible_paths: 0 }
    } else {
        Estimate { bytes: t.bytes, incomplete: true, inaccessible_paths: t.inaccessible }
    }
}

impl WalkTally {
    /// Nothing counted yet.
    pub fn new() -> (r: Self)
        ensures
            r == (WalkTally { bytes: 0, inaccessible: 0 }),
    {
        WalkTally { bytes: 0, inaccessible: 0 }
    }

    /// Counts `event` and says what the walk does next.
    pub fn record(&mut self, event: WalkEvent) -> (step: WalkStep)
        requires
            countable(*old(self), event),
        ensures
            *final(self) == tally_after(*old(self), event),
            step == step_after(event),
    {
        match event {
            WalkEvent::File(len) => {
                self.bytes = self.bytes + len;
                WalkStep::Continue
            },
            WalkEvent::OutOfTime | WalkEvent::UnlistableDirectory => {
                self.inaccessible = self.inaccessible + 1;
                WalkStep::Stop
            },
            WalkEvent::UnreadableEntry => {
                self.inaccessible = self.inaccessible + 1;
                WalkStep::Continue
            },
            WalkEvent::Symlink => WalkStep::Continue,
            WalkEvent::Directory => WalkStep::Descend,
        }
    }

    /// The size the walk measured.
    pub fn estimate(&self) -> (r: Estimate)
        ensures
            r == tally_estimate(*self),
    {
        if self.inaccessible == 0 {
            Estimate::exact(self.bytes)
        } else {
            Estimate::lower_bound(self.bytes, self.inaccessible)
        }
    }
}

proof fn lemma_measured_bytes_grow(
    vs: Seq<StorageVolume>,
    rules: Seq<Rule>,
    found: Seq<Option<Estimate>>,
    i: int,
    k: nat,
    n: nat,
)
    requires
        k <= n,
    ensures
        measured_bytes(found, assigned_upto(vs, rules, found, i, k)) <= measured_bytes(found, assigned_upto(vs, rules, found, i, n)),
    decreases n - k,
{
    if k < n {
        lemma_measured_bytes_grow(vs, rules, found, i, k, (n - 1) as nat);
        let prev = assigned_upto(vs, rules, found, i, (n - 1) as nat);
        assert(prev.push(n - 1).drop_last() =~= prev);
    }
}

/// Whether the sizes of each volume's categories, with the measured
/// locations placed on it, add up to at most `u64::MAX`: the condition
/// `scan_report` asks for.
pub fn measurements_fit(report: &StorageReport, rules: &[Rule], found: &[Option<Estimate>]) -> (r: bool)
    requires
        found@.len() == rules@.len(),
    ensures
        r == scan_fits(report.storage@, rules@, found@),
{
    let vs = &report.storage;
    let mut i: usize = 0;
    while i < vs.len()
        invariant
            i <= vs@.len(),
            vs == &report.storage,
            found@.len() == rules@.len(),
            forall|q: int| 0 <= q < i ==> category_bytes((#[trigger] vs@[q]).categories@) + measured_bytes(found@, assigned(vs@, rules@, found@, q)) <= u64::MAX,
        decreases vs@.len() - i,
    {
        let cs = &vs[i].categories;
        let mut total: u128 = 0;
        let mut j: usize = 0;
        while j < cs.len()
            invariant
                j <= cs@.len(),
                i < vs@.len(),
                vs == &report.storage,
                cs@ == vs@[i as int].categories@,
                total == category_bytes(cs@.take(j as int)),
                total <= u64::MAX,
            decreases cs@.len() - j,
        {
            assert(cs@.take(j + 1).drop_last() =~= cs@.take(j as int));
            total = total + cs[j].estimate.bytes as u128;
            if total > u64::MAX as u128 {
                proof {
                    lemma_category_bytes_prefix(cs@, j + 1);
                    assert(category_bytes(vs@[i as int].categories@) + measured_bytes(found@, assigned(vs@, rules@, found@, i as int)) > u64::MAX);
                }
                return false;
            }
            j = j + 1;
        }
        assert(cs@.take(cs@.len() as int) =~= cs@);
        let ghost base = category_bytes(cs@);
        let mut k: usize = 0;
        while k < rules.len()
            invariant
                k <= rules@.len(),
                found@.len() == rules@.len(),
                i < vs@.len(),
                vs == &report.storage,
                base == category_bytes(vs@[i as int].categories@),
                total == base + measured_bytes(found@, assigned_upto(vs@, rules@, found@, i as int, k as nat)),
                total <= u64::MAX,
            decreases rules@.len() - k,
        {
            if let Some(e) = found[k] {
                let o = owning_volume_index(report, rules[k].path.as_str());
                if o == Some(i) {
                    let ghost prev = assigned_upto(vs@, rules@, found@, i as int, k as nat);
                    assert(prev.push(k as int).drop_last() =~= prev);
                    total = total + e.bytes as u128;
                    if total > u64::MAX as u128 {
                        proof {
                            lemma_measured_bytes_grow(vs@, rules@, found@, i as int, (k + 1) as nat, rules@.len());
                        }
                        return false;
                    }
                }
            }
            k = k + 1;
        }
        i = i + 1;
    }
    true
}

/// After a scan, the categories of a volume that has any add up to its used
/// bytes, unless the named ones already exceed them; then `Other` is empty.
pub proof fn lemma_scanned_categories_add_up(
    cs: Seq<SemanticCategory>,
    old: StorageVolume,
    rules: Seq<Rule>,
    found: Seq<Option<Estimate>>,
    ks: Seq<int>,
)
    requires
        is_scanned(cs, old, rules, found, ks),
        old.categories@.len() + ks.len() > 0,
    ensures
        category_bytes(old.categories@) + measured_bytes(found, ks) <= old.used_bytes ==> category_bytes(cs) == old.used_bytes,
        category_bytes(old.categories@) + measured_bytes(found, ks) > old.used_bytes ==> cs.last().estimate.bytes == 0,
{
    let m = old.categories@.len() + ks.len();
    lemma_category_bytes_extends(cs.take(m as int), old.categories@, rules, found, ks);
    assert(cs.drop_last() =~= cs.take(m as int));
}

/// A walk that met no unreadable path and did not run out of time is exact;
/// otherwise its estimate is a lower bound that records how many paths it
/// missed. Either way it counts the bytes it found.
pub proof fn lemma_tally_estimate(t: WalkTally)
    ensures
        tally_estimate(t).bytes == t.bytes,
        tally_estimate(t).incomplete <==> t.inaccessible > 0,
        tally_estimate(t).inaccessible_paths == t.inaccessible,
{
}

} // verus!
