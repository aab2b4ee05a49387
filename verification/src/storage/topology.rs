//! From the raw mount table to the storage that matters: derived and
//! virtual mounts are hidden, views of the same backing storage are
//! grouped, and each group becomes one named volume.
use vstd::prelude::*;
use crate::model::{MountView, Percent, StorageReport, StorageVolume, Warning, used_percent};
use crate::path::{
    component_count, component_count_exec, file_name, file_name_exec, path_eq, path_eq_exec,
    path_starts_with, path_starts_with_exec,
};
use crate::platform::{Discovery, FilesystemStats, RawMount};
use crate::text::{
    chars_of, clone_opt, contains, contains_seq, opt_str_view, opt_view, seq_is, string_of,
};

verus! {

/// The filesystem types that never hold user data of their own.
pub open spec fn is_virtual_fs(fs: Seq<char>) -> bool {
    ||| fs == "proc"@
    ||| fs == "sysfs"@
    ||| fs == "tmpfs"@
    ||| fs == "devtmpfs"@
    ||| fs == "devpts"@
    ||| fs == "cgroup"@
    ||| fs == "cgroup2"@
    ||| fs == "securityfs"@
    ||| fs == "overlay"@
    ||| fs == "squashfs"@
    ||| fs == "tracefs"@
    ||| fs == "debugfs"@
    ||| fs == "pstore"@
    ||| fs == "efivarfs"@
    ||| fs == "devfs"@
    ||| fs == "configfs"@
    ||| fs == "mqueue"@
    ||| fs == "bpf"@
    ||| fs == "autofs"@
    ||| fs == "hugetlbfs"@
    ||| fs == "fusectl"@
    ||| fs == "binfmt_misc"@
    ||| fs == "nsfs"@
    ||| fs == "rpc_pipefs"@
}

fn is_virtual_fs_exec(fs: &[char]) -> (r: bool)
    ensures
        r == is_virtual_fs(fs@),
{
    seq_is(fs, "proc") || seq_is(fs, "sysfs") || seq_is(fs, "tmpfs") || seq_is(fs, "devtmpfs")
        || seq_is(fs, "devpts") || seq_is(fs, "cgroup") || seq_is(fs, "cgroup2") || seq_is(
        fs,
        "securityfs",
    ) || seq_is(fs, "overlay") || seq_is(fs, "squashfs") || seq_is(fs, "tracefs") || seq_is(
        fs,
        "debugfs",
    ) || seq_is(fs, "pstore") || seq_is(fs, "efivarfs") || seq_is(fs, "devfs") || seq_is(
        fs,
        "configfs",
    ) || seq_is(fs, "mqueue") || seq_is(fs, "bpf") || seq_is(fs, "autofs") || seq_is(
        fs,
        "hugetlbfs",
    ) || seq_is(fs, "fusectl") || seq_is(fs, "binfmt_misc") || seq_is(fs, "nsfs") || seq_is(
        fs,
        "rpc_pipefs",
    )
}

/// Why a mount with this target and filesystem is not storage of its own.
#[verifier::opaque]
pub open spec fn hidden_reason_spec(target: Seq<char>, fs: Seq<char>) -> Option<Seq<char>> {
    if (path_starts_with(target, "/System/Volumes"@) && !path_eq(target, "/System/Volumes/Data"@))
        || contains_seq(target, "/com.apple.security.cryptexd/mnt/"@) || contains_seq(
        target,
        "/AppTranslocation/"@,
    ) {
        Some("macOS system-derived mount"@)
    } else if fs == "overlay"@ {
        Some("container overlay"@)
    } else if is_virtual_fs(fs) {
        Some("virtual filesystem"@)
    } else {
        None
    }
}

/// Why `m` is hidden from the primary storage list, if it is.
pub fn hidden_reason(m: &RawMount) -> (r: Option<&'static str>)
    ensures
        opt_str_view(r) == hidden_reason_spec(m.target@, m.filesystem@),
{
    reveal(hidden_reason_spec);
    let target = chars_of(m.target.as_str());
    let fs = chars_of(m.filesystem.as_str());
    let system = chars_of("/System/Volumes");
    let data = chars_of("/System/Volumes/Data");
    let cryptex = chars_of("/com.apple.security.cryptexd/mnt/");
    let translocation = chars_of("/AppTranslocation/");
    if (path_starts_with_exec(&target, &system) && !path_eq_exec(&target, &data)) || contains(
        &target,
        &cryptex,
    ) || contains(&target, &translocation) {
        Some("macOS system-derived mount")
    } else if seq_is(&fs, "overlay") {
        Some("container overlay")
    } else if is_virtual_fs_exec(&fs) {
        Some("virtual filesystem")
    } else {
        None
    }
}

/// Why `m` is hidden, given whether the report describes a container.
#[verifier::opaque]
pub open spec fn hidden_reason_for_spec(m: RawMount, container: bool) -> Option<Seq<char>> {
    if container && (path_eq(m.target@, "/boot"@) || path_starts_with(m.target@, "/boot/"@)) {
        Some("system partition"@)
    } else if contains_seq(m.target@, "azure_session_dir"@) {
        Some("temporary session mount"@)
    } else {
        hidden_reason_spec(m.target@, m.filesystem@)
    }
}

/// Why `m` is hidden in an environment that is a container or not: a
/// system partition under `/boot` in a container, a temporary session
/// mount, else what `hidden_reason` says.
pub fn hidden_reason_for(m: &RawMount, container: bool) -> (r: Option<&'static str>)
    ensures
        opt_str_view(r) == hidden_reason_for_spec(*m, container),
{
    reveal(hidden_reason_for_spec);
    let target = chars_of(m.target.as_str());
    if container && (path_eq_exec(&target, &chars_of("/boot")) || path_starts_with_exec(
        &target,
        &chars_of("/boot/"),
    )) {
        return Some("system partition");
    }
    if contains(&target, &chars_of("azure_session_dir")) {
        return Some("temporary session mount");
    }
    hidden_reason(m)
}

/// The name shown for a volume whose representative mount is `m`.
#[verifier::opaque]
pub open spec fn volume_name_spec(m: RawMount, container: bool) -> Seq<char> {
    if !container && m.volume_name is Some {
        m.volume_name->0@
    } else if path_eq(m.target@, "/"@) {
        if container {
            "Container root"@
        } else {
            "Main disk"@
        }
    } else if path_starts_with(m.target@, "/home/"@) {
        "Home"@
    } else if path_eq(m.target@, "/workspace"@) {
        "Workspace"@
    } else if path_eq(m.target@, "/mnt"@) {
        "Mounted data"@
    } else {
        match file_name(m.target@) {
            Some(n) => n,
            None => Seq::empty(),
        }
    }
}

fn volume_name(m: &RawMount, container: bool) -> (r: String)
    ensures
        r@ == volume_name_spec(*m, container),
{
    reveal(volume_name_spec);
    if !container {
        if let Some(name) = &m.volume_name {
            return name.clone();
        }
    }
    let target = chars_of(m.target.as_str());
    if path_eq_exec(&target, &chars_of("/")) {
        return if container {
            "Container root".to_string()
        } else {
            "Main disk".to_string()
        };
    }
    if path_starts_with_exec(&target, &chars_of("/home/")) {
        return "Home".to_string();
    }
    if path_eq_exec(&target, &chars_of("/workspace")) {
        return "Workspace".to_string();
    }
    if path_eq_exec(&target, &chars_of("/mnt")) {
        return "Mounted data".to_string();
    }
    match file_name_exec(&target) {
        Some(n) => string_of(&n),
        None => String::new(),
    }
}

/// The capacity figures of `m`, zero when they could not be read.
pub open spec fn stats_of(m: RawMount) -> FilesystemStats {
    match m.stats {
        Some(s) => s,
        None => FilesystemStats { total_bytes: 0, used_bytes: 0, available_bytes: 0 },
    }
}

/// `v` shows mount `m`, hidden for `reason` when there is one.
pub open spec fn is_view_of(v: MountView, m: RawMount, reason: Option<Seq<char>>) -> bool {
    &&& v.source@ == m.source@
    &&& v.target@ == m.target@
    &&& v.filesystem@ == m.filesystem@
    &&& opt_view(v.device_id) == Some(m.device_id@)
    &&& opt_view(v.backing_storage_id) == opt_view(m.backing_id)
    &&& v.independent == reason is None
    &&& opt_view(v.hidden_reason) == reason
    &&& v.total_bytes == stats_of(m).total_bytes
    &&& v.used_bytes == stats_of(m).used_bytes
    &&& v.available_bytes == stats_of(m).available_bytes
}

fn view(m: &RawMount, reason: Option<&str>) -> (r: MountView)
    ensures
        is_view_of(r, *m, opt_str_view(reason)),
{
    let s = match m.stats {
        Some(s) => s,
        None => FilesystemStats { total_bytes: 0, used_bytes: 0, available_bytes: 0 },
    };
    MountView {
        source: m.source.clone(),
        target: m.target.clone(),
        filesystem: m.filesystem.clone(),
        device_id: Some(m.device_id.clone()),
        backing_storage_id: clone_opt(&m.backing_id),
        independent: reason.is_none(),
        hidden_reason: match reason {
            Some(r) => Some(r.to_string()),
            None => None,
        },
        total_bytes: s.total_bytes,
        used_bytes: s.used_bytes,
        available_bytes: s.available_bytes,
    }
}

} // verus!

verus! {

/// `m` is shown as (part of) a volume rather than hidden.
pub open spec fn is_visible(m: RawMount, container: bool) -> bool {
    hidden_reason_for_spec(m, container) is None
}

/// The backing storage that `m` is a view of: its backing id, else its
/// device id, else its source.
pub open spec fn group_id(m: RawMount) -> Seq<char> {
    match m.backing_id {
        Some(b) => b@,
        None => if m.device_id@.len() > 0 {
            m.device_id@
        } else {
            m.source@
        },
    }
}

/// `m` is a visible view of the storage `id`.
pub open spec fn in_group(m: RawMount, container: bool, id: Seq<char>) -> bool {
    is_visible(m, container) && group_id(m) == id
}

/// The positions below `n` of the visible views of storage `id`, in order.
pub open spec fn members(ms: Seq<RawMount>, container: bool, id: Seq<char>, n: nat) -> Seq<usize>
    decreases n,
{
    if n == 0 {
        Seq::empty()
    } else {
        let prev = members(ms, container, id, (n - 1) as nat);
        if in_group(ms[n - 1], container, id) {
            prev.push((n - 1) as usize)
        } else {
            prev
        }
    }
}

/// The hidden mounts among the first `n`, in order.
pub open spec fn hidden_upto(ms: Seq<RawMount>, container: bool, n: nat) -> Seq<RawMount>
    decreases n,
{
    if n == 0 {
        Seq::empty()
    } else {
        let prev = hidden_upto(ms, container, (n - 1) as nat);
        if is_visible(ms[n - 1], container) {
            prev
        } else {
            prev.push(ms[n - 1])
        }
    }
}

/// How many of the first `n` mounts could not be inspected.
pub open spec fn stats_errors(ms: Seq<RawMount>, n: nat) -> nat
    decreases n,
{
    if n == 0 {
        0
    } else {
        stats_errors(ms, (n - 1) as nat) + if ms[n - 1].stats_error is Some {
            1nat
        } else {
            0nat
        }
    }
}

/// The sort entry of mount `j`: mounts at `/` first, then by depth.
pub open spec fn mount_entry(ms: Seq<RawMount>, j: usize) -> (bool, u64, usize) {
    (!path_eq(ms[j as int].target@, "/"@), component_count(ms[j as int].target@) as u64, j)
}

/// The views of storage `id`, representative first, then by depth, ties in
/// mount-table order.
pub open spec fn group_order(ms: Seq<RawMount>, container: bool, id: Seq<char>) -> Seq<(bool, u64, usize)> {
    crate::order::stable_sort(
        members(ms, container, id, ms.len()).map_values(|j: usize| mount_entry(ms, j)),
    )
}

/// The place of a volume in the report: the volume at `/` of a machine, or
/// Home, first; then Workspace, the root, mounted data and everything else.
pub open spec fn priority(name: Seq<char>, rep: Seq<char>, container: bool) -> u8 {
    if !container && path_eq(rep, "/"@) {
        0
    } else if name == "Home"@ {
        0
    } else if name == "Workspace"@ {
        1
    } else if name == "Container root"@ || name == "Main disk"@ {
        2
    } else if name == "Mounted data"@ {
        3
    } else {
        4
    }
}

/// Volume `a` is listed before volume `b`.
#[verifier::opaque]
pub open spec fn listed_before(a: StorageVolume, b: StorageVolume, container: bool) -> bool {
    let pa = priority(a.name@, a.representative_mount@, container);
    let pb = priority(b.name@, b.representative_mount@, container);
    pa < pb || (pa == pb && crate::order::seq_lt(a.id@, b.id@))
}

/// `v` is the volume of storage `v.id` built from the mounts `ms`.
#[verifier::opaque]
pub open spec fn is_volume_of(v: StorageVolume, ms: Seq<RawMount>, container: bool) -> bool {
    let order = group_order(ms, container, v.id@);
    let rep = ms[order[0].2 as int];
    let s = stats_of(rep);
    &&& order.len() > 0
    &&& v.name@ == volume_name_spec(rep, container)
    &&& v.filesystem@ == rep.filesystem@
    &&& v.representative_mount@ == rep.target@
    &&& v.total_bytes == s.total_bytes
    &&& v.used_bytes == s.used_bytes
    &&& v.available_bytes == s.available_bytes
    &&& v.reserved_bytes == Some(
        sat_sub(sat_sub(s.total_bytes, s.used_bytes), s.available_bytes),
    )
    &&& v.used_percent == (if s.total_bytes == 0 {
        Percent { used: 0, total: 0 }
    } else {
        Percent { used: s.used_bytes, total: s.total_bytes }
    })
    &&& v.physical
    &&& v.removable == rep.removable
    &&& v.categories@.len() == 0
    &&& v.mounts@.len() == order.len()
    &&& forall|k: int| 0 <= k < order.len() ==> #[trigger] v.mounts@[k]@ == ms[order[k].2 as int].target@
}

/// `a - b`, or zero when `b` is larger.
pub open spec fn sat_sub(a: u64, b: u64) -> u64 {
    if a >= b {
        (a - b) as u64
    } else {
        0
    }
}

proof fn lemma_members_bounded(ms: Seq<RawMount>, container: bool, id: Seq<char>, n: nat)
    requires
        n <= usize::MAX,
    ensures
        forall|k: int| 0 <= k < members(ms, container, id, n).len() ==> {
            let j = #[trigger] members(ms, container, id, n)[k];
            &&& j < n
            &&& in_group(ms[j as int], container, id)
        },
        forall|j: int| 0 <= j < n && in_group(ms[j], container, id) ==> #[trigger] members(ms, container, id, n).contains(j as usize),
        members(ms, container, id, n).len() > 0 ==> exists|j: int| 0 <= j < n && in_group(ms[j], container, id),
    decreases n,
{
    if n > 0 {
        lemma_members_bounded(ms, container, id, (n - 1) as nat);
        let prev = members(ms, container, id, (n - 1) as nat);
        let cur = members(ms, container, id, n);
        assert forall|j: int| 0 <= j < n && in_group(ms[j], container, id) implies #[trigger] cur.contains(j as usize) by {
            if j < n - 1 {
                assert(prev.contains(j as usize));
                let k = choose|k: int| 0 <= k < prev.len() && prev[k] == j as usize;
                if in_group(ms[n - 1], container, id) {
                    assert(prev.push((n - 1) as usize)[k] == j as usize);
                }
            } else {
                assert(cur[cur.len() - 1] == j as usize);
            }
        }
        if cur.len() > 0 {
            let j = cur[0] as int;
            assert(0 <= j < n && in_group(ms[j], container, id));
        }
    }
}

proof fn lemma_members_empty(ms: Seq<RawMount>, container: bool, id: Seq<char>, n: nat)
    requires
        forall|j: int| 0 <= j < n ==> !in_group(ms[j], container, id),
    ensures
        members(ms, container, id, n).len() == 0,
    decreases n,
{
    if n > 0 {
        lemma_members_empty(ms, container, id, (n - 1) as nat);
    }
}

fn group_id_exec(m: &RawMount) -> (r: Vec<char>)
    ensures
        r@ == group_id(*m),
{
    match &m.backing_id {
        Some(b) => chars_of(b.as_str()),
        None => {
            let device = chars_of(m.device_id.as_str());
            if device.len() > 0 {
                device
            } else {
                chars_of(m.source.as_str())
            }
        },
    }
}

fn priority_exec(name: &String, rep: &String, container: bool) -> (r: u8)
    ensures
        r == priority(name@, rep@, container),
{
    let rep_chars = chars_of(rep.as_str());
    let name_chars = chars_of(name.as_str());
    if !container && path_eq_exec(&rep_chars, &chars_of("/")) {
        0
    } else if seq_is(&name_chars, "Home") {
        0
    } else if seq_is(&name_chars, "Workspace") {
        1
    } else if seq_is(&name_chars, "Container root") || seq_is(&name_chars, "Main disk") {
        2
    } else if seq_is(&name_chars, "Mounted data") {
        3
    } else {
        4
    }
}

} // verus!

verus! {

proof fn lemma_group_order_facts(ms: Seq<RawMount>, container: bool, id: Seq<char>)
    requires
        ms.len() <= usize::MAX,
    ensures
        group_order(ms, container, id).len() == members(ms, container, id, ms.len()).len(),
        forall|k: int| 0 <= k < group_order(ms, container, id).len() ==> {
            let j = (#[trigger] group_order(ms, container, id)[k]).2;
            &&& j < ms.len()
            &&& in_group(ms[j as int], container, id)
        },
{
    let mem = members(ms, container, id, ms.len());
    let ents = mem.map_values(|j: usize| mount_entry(ms, j));
    lemma_members_bounded(ms, container, id, ms.len());
    crate::order::lemma_stable_sort_len(ents);
    assert forall|k: int| 0 <= k < group_order(ms, container, id).len() implies {
        let j = (#[trigger] group_order(ms, container, id)[k]).2;
        &&& j < ms.len()
        &&& in_group(ms[j as int], container, id)
    } by {
        let e = group_order(ms, container, id)[k];
        assert(ents.contains(e));
        let q = choose|q: int| 0 <= q < ents.len() && ents[q] == e;
        assert(ents[q] == mount_entry(ms, mem[q]));
        assert(mem[q] < ms.len());
    }
}

/// Builds the volume of storage `id` from its views `mems`.
fn build_volume(ms: &Vec<RawMount>, container: bool, id: &Vec<char>, mems: &Vec<usize>) -> (v: StorageVolume)
    requires
        mems@ == members(ms@, container, id@, ms@.len()),
        mems.len() > 0,
    ensures
        is_volume_of(v, ms@, container),
        v.id@ == id@,
{
    let n = ms.len();
    proof {
        lemma_members_bounded(ms@, container, id@, ms@.len());
    }
    let ghost mk = |j: usize| mount_entry(ms@, j);
    let mut entries: Vec<crate::order::Entry> = Vec::new();
    let mut k: usize = 0;
    while k < mems.len()
        invariant
            k <= mems.len(),
            mems@ == members(ms@, container, id@, ms@.len()),
            forall|q: int| 0 <= q < mems.len() ==> #[trigger] mems@[q] < ms.len(),
            mk == |j: usize| mount_entry(ms@, j),
            entries@ == mems@.take(k as int).map_values(mk),
        decreases mems.len() - k,
    {
        let j = mems[k];
        let t = chars_of(ms[j].target.as_str());
        let nonroot = !path_eq_exec(&t, &chars_of("/"));
        let cnt = component_count_exec(&t) as u64;
        entries.push((nonroot, cnt, j));
        assert(entries@ =~= mems@.take(k + 1).map_values(mk));
        k = k + 1;
    }
    assert(mems@.take(mems.len() as int) =~= mems@);
    let order = crate::order::stable_sort_exec(&entries);
    proof {
        lemma_group_order_facts(ms@, container, id@);
        assert(order@ == group_order(ms@, container, id@));
    }
    proof {
        reveal(is_volume_of);
    }
    let rep = &ms[order[0].2];
    let s = match rep.stats {
        Some(s) => s,
        None => FilesystemStats { total_bytes: 0, used_bytes: 0, available_bytes: 0 },
    };
    let mut targets: Vec<String> = Vec::new();
    let mut q: usize = 0;
    while q < order.len()
        invariant
            q <= order.len(),
            order@ == group_order(ms@, container, id@),
            forall|x: int| 0 <= x < order.len() ==> (#[trigger] order@[x]).2 < ms.len(),
            targets@.len() == q,
            forall|x: int| 0 <= x < q ==> #[trigger] targets@[x]@ == ms@[order@[x].2 as int].target@,
        decreases order.len() - q,
    {
        targets.push(ms[order[q].2].target.clone());
        q = q + 1;
    }
    StorageVolume {
        id: string_of(id),
        name: volume_name(rep, container),
        filesystem: rep.filesystem.clone(),
        representative_mount: rep.target.clone(),
        total_bytes: s.total_bytes,
        used_bytes: s.used_bytes,
        available_bytes: s.available_bytes,
        reserved_bytes: Some(
            s.total_bytes.saturating_sub(s.used_bytes).saturating_sub(s.available_bytes),
        ),
        used_percent: used_percent(s.used_bytes, s.total_bytes),
        physical: true,
        removable: rep.removable,
        categories: Vec::new(),
        mounts: targets,
    }
}

} // verus!

verus! {

/// Inserts `v` into the listed volumes, after every volume of no greater
/// priority.
fn insert_listed(
    storage: &mut Vec<StorageVolume>,
    prios: &mut Vec<u8>,
    v: StorageVolume,
    pr: u8,
    Ghost(msv): Ghost<Seq<RawMount>>,
    container: bool,
) -> (pos: usize)
    requires
        old(storage).len() == old(prios).len(),
        pr == priority(v.name@, v.representative_mount@, container),
        is_volume_of(v, msv, container),
        forall|k: int| 0 <= k < old(storage).len() ==> old(prios)@[k] == priority(#[trigger] old(storage)@[k].name@, old(storage)@[k].representative_mount@, container),
        forall|k: int| 0 <= k < old(storage).len() ==> is_volume_of(#[trigger] old(storage)@[k], msv, container),
        forall|a: int, b: int| 0 <= a < b < old(storage).len() ==> listed_before(#[trigger] old(storage)@[a], #[trigger] old(storage)@[b], container),
        forall|k: int| 0 <= k < old(storage).len() ==> crate::order::seq_lt(#[trigger] old(storage)@[k].id@, v.id@),
    ensures
        pos <= old(storage).len(),
        final(storage)@ == old(storage)@.insert(pos as int, v),
        final(prios)@ == old(prios)@.insert(pos as int, pr),
        final(storage).len() == final(prios).len(),
        forall|k: int| 0 <= k < final(storage).len() ==> final(prios)@[k] == priority(#[trigger] final(storage)@[k].name@, final(storage)@[k].representative_mount@, container),
        forall|k: int| 0 <= k < final(storage).len() ==> is_volume_of(#[trigger] final(storage)@[k], msv, container),
        forall|a: int, b: int| 0 <= a < b < final(storage).len() ==> listed_before(#[trigger] final(storage)@[a], #[trigger] final(storage)@[b], container),
{
    let mut pos: usize = storage.len();
    while pos > 0 && prios[pos - 1] > pr
        invariant
            pos <= storage.len(),
            storage.len() == prios.len(),
            storage@ == old(storage)@,
            prios@ == old(prios)@,
            forall|k: int| pos <= k < storage.len() ==> #[trigger] prios@[k] > pr,
        decreases pos,
    {
        pos = pos - 1;
    }
    let ghost old_storage = storage@;
    let ghost old_prios = prios@;
    storage.insert(pos, v);
    prios.insert(pos, pr);
    proof {
        reveal(listed_before);
        assert forall|k: int| 0 <= k < storage.len() implies prios@[k] == priority(#[trigger] storage@[k].name@, storage@[k].representative_mount@, container) by {
            if k < pos {
                assert(storage@[k] == old_storage[k]);
            } else if k > pos {
                assert(storage@[k] == old_storage[k - 1]);
            }
        }
        assert forall|k: int| 0 <= k < storage.len() implies is_volume_of(#[trigger] storage@[k], msv, container) by {
            if k < pos {
                assert(storage@[k] == old_storage[k]);
            } else if k > pos {
                assert(storage@[k] == old_storage[k - 1]);
            }
        }
        assert forall|a: int, b: int| 0 <= a < b < storage.len() implies listed_before(#[trigger] storage@[a], #[trigger] storage@[b], container) by {
            if b < pos {
                assert(storage@[a] == old_storage[a] && storage@[b] == old_storage[b]);
            } else if b == pos {
                assert(storage@[a] == old_storage[a]);
                if a < pos - 1 {
                    assert(listed_before(old_storage[a], old_storage[pos - 1], container));
                }
                assert(old_prios[pos - 1] <= pr);
            } else if a == pos {
                assert(storage@[b] == old_storage[b - 1]);
                assert(old_prios[b - 1] > pr);
            } else if a < pos {
                assert(storage@[a] == old_storage[a] && storage@[b] == old_storage[b - 1]);
            } else {
                assert(storage@[a] == old_storage[a - 1] && storage@[b] == old_storage[b - 1]);
            }
        }
    }
    pos
}

/// Adds the volume of group `g` to the listed volumes; it lands at `pos`.
fn list_step(
    storage: &mut Vec<StorageVolume>,
    prios: &mut Vec<u8>,
    ms: &Vec<RawMount>,
    container: bool,
    ids: &Vec<Vec<char>>,
    mems: &Vec<Vec<usize>>,
    g: usize,
) -> (pos: usize)
    requires
        g < ids.len(),
        ids.len() == mems.len(),
        mems@[g as int]@ == members(ms@, container, ids@[g as int]@, ms@.len()),
        mems@[g as int].len() > 0,
        old(storage).len() == old(prios).len(),
        forall|k: int| 0 <= k < old(storage).len() ==> old(prios)@[k] == priority(#[trigger] old(storage)@[k].name@, old(storage)@[k].representative_mount@, container),
        forall|k: int| 0 <= k < old(storage).len() ==> is_volume_of(#[trigger] old(storage)@[k], ms@, container),
        forall|a: int, b: int| 0 <= a < b < old(storage).len() ==> listed_before(#[trigger] old(storage)@[a], #[trigger] old(storage)@[b], container),
        forall|k: int| 0 <= k < old(storage).len() ==> crate::order::seq_lt(#[trigger] old(storage)@[k].id@, ids@[g as int]@),
    ensures
        pos <= old(storage).len(),
        final(storage).len() == final(prios).len(),
        final(storage).len() == old(storage).len() + 1,
        forall|k: int| 0 <= k < pos ==> #[trigger] final(storage)@[k] == old(storage)@[k],
        forall|k: int| pos < k < final(storage).len() ==> #[trigger] final(storage)@[k] == old(storage)@[k - 1],
        final(storage)@[pos as int].id@ == ids@[g as int]@,
        forall|k: int| 0 <= k < final(storage).len() ==> final(prios)@[k] == priority(#[trigger] final(storage)@[k].name@, final(storage)@[k].representative_mount@, container),
        forall|k: int| 0 <= k < final(storage).len() ==> is_volume_of(#[trigger] final(storage)@[k], ms@, container),
        forall|a: int, b: int| 0 <= a < b < final(storage).len() ==> listed_before(#[trigger] final(storage)@[a], #[trigger] final(storage)@[b], container),
{
    let v = build_volume(ms, container, &ids[g], &mems[g]);
    let pr = priority_exec(&v.name, &v.representative_mount, container);
    let ghost old_storage = storage@;
    let pos = insert_listed(storage, prios, v, pr, Ghost(ms@), container);
    assert(storage@[pos as int] == v);
    pos
}

/// The volumes of the storage groups `ids` (views `mems`), listed by role
/// and then by id.
fn list_volumes(ms: &Vec<RawMount>, container: bool, ids: &Vec<Vec<char>>, mems: &Vec<Vec<usize>>) -> (storage: Vec<StorageVolume>)
    requires
        ids.len() == mems.len(),
        forall|a: int, b: int| 0 <= a < b < ids.len() ==> crate::order::seq_lt(#[trigger] ids@[a]@, #[trigger] ids@[b]@),
        forall|g: int| 0 <= g < ids.len() ==> (#[trigger] mems@[g])@ == members(ms@, container, ids@[g]@, ms@.len()),
        forall|g: int| 0 <= g < ids.len() ==> (#[trigger] mems@[g]).len() > 0,
        forall|j: int| 0 <= j < ms@.len() && is_visible(#[trigger] ms@[j], container) ==> exists|g: int| 0 <= g < ids.len() && ids@[g]@ == group_id(ms@[j]),
    ensures
        forall|k: int| 0 <= k < storage@.len() ==> is_volume_of(#[trigger] storage@[k], ms@, container),
        forall|a: int, b: int| 0 <= a < b < storage@.len() ==> listed_before(#[trigger] storage@[a], #[trigger] storage@[b], container),
        forall|j: int| 0 <= j < ms@.len() && is_visible(#[trigger] ms@[j], container) ==> exists|k: int| 0 <= k < storage@.len() && (#[trigger] storage@[k]).id@ == group_id(ms@[j]),
{
    let n = ms.len();
    let ghost msv = ms@;
    let ghost idv = ids@.map_values(|x: Vec<char>| x@);
    assert forall|j: int| 0 <= j < n && is_visible(#[trigger] msv[j], container) implies exists|h: int| 0 <= h < ids.len() && idv[h] == group_id(msv[j]) by {
        let h = choose|h: int| 0 <= h < ids.len() && ids@[h]@ == group_id(msv[j]);
        assert(idv[h] == ids@[h]@);
    }
    let mut storage: Vec<StorageVolume> = Vec::new();
    let mut prios: Vec<u8> = Vec::new();
    let mut g: usize = 0;
    let ghost mut owner: Seq<int> = Seq::empty();
    let ghost mut place: Seq<int> = Seq::empty();
    while g < ids.len()
        invariant
            g <= ids.len(),
            idv == ids@.map_values(|x: Vec<char>| x@),
            idv.len() == ids.len(),
            n == msv.len(),
            ms@ == msv,
            ids.len() == mems.len(),
            forall|a: int, b: int| 0 <= a < b < ids.len() ==> crate::order::seq_lt(#[trigger] idv[a], #[trigger] idv[b]),
            forall|h: int| 0 <= h < ids.len() ==> (#[trigger] mems@[h])@ == members(msv, container, idv[h], n as nat),
            forall|h: int| 0 <= h < ids.len() ==> (#[trigger] mems@[h]).len() > 0,
            storage.len() == prios.len(),
            storage.len() == g,
            forall|k: int| 0 <= k < storage.len() ==> prios@[k] == priority(#[trigger] storage@[k].name@, storage@[k].representative_mount@, container),
            forall|k: int| 0 <= k < storage.len() ==> is_volume_of(#[trigger] storage@[k], msv, container),
            forall|a: int, b: int| 0 <= a < b < storage.len() ==> listed_before(#[trigger] storage@[a], #[trigger] storage@[b], container),
            owner.len() == g,
            place.len() == g,
            forall|k: int| 0 <= k < g ==> 0 <= #[trigger] owner[k] < g && storage@[k].id@ == idv[owner[k]],
            forall|h: int| 0 <= h < g ==> 0 <= #[trigger] place[h] < g && storage@[place[h]].id@ == idv[h],
        decreases ids.len() - g,
    {
        assert(idv[g as int] == ids@[g as int]@);
        assert forall|k: int| 0 <= k < storage.len() implies crate::order::seq_lt(#[trigger] storage@[k].id@, ids@[g as int]@) by {
            assert(owner[k] < g);
        }
        let ghost old_storage = storage@;
        let pos = list_step(&mut storage, &mut prios, ms, container, ids, mems, g);
        proof {
            let old_owner = owner;
            let old_place = place;
            owner = old_owner.insert(pos as int, g as int);
            place = old_place.map_values(|p: int| if p >= pos { p + 1 } else { p }).push(pos as int);
            assert forall|k: int| 0 <= k < g + 1 implies 0 <= #[trigger] owner[k] < g + 1 && storage@[k].id@ == idv[owner[k]] by {
                if k < pos {
                    assert(owner[k] == old_owner[k]);
                } else if k > pos {
                    assert(owner[k] == old_owner[k - 1]);
                }
            }
            assert forall|h: int| 0 <= h < g + 1 implies 0 <= #[trigger] place[h] < g + 1 && storage@[place[h]].id@ == idv[h] by {
                if h < g {
                    let p = old_place[h];
                    if p >= pos {
                        assert(storage@[p + 1] == old_storage[p]);
                    } else {
                        assert(storage@[p] == old_storage[p]);
                    }
                }
            }
        }
        g = g + 1;
    }
    proof {
        assert forall|j: int| 0 <= j < n && is_visible(#[trigger] msv[j], container) implies exists|k: int| 0 <= k < storage@.len() && (#[trigger] storage@[k]).id@ == group_id(msv[j]) by {
            let h = choose|h: int| 0 <= h < ids.len() && idv[h] == group_id(msv[j]);
            assert(storage@[place[h]].id@ == idv[h]);
        }
    }
    storage
}

/// `r` is the report of the mounts `ms` for the given environment: the
/// hidden mounts in table order, one volume per storage that a visible
/// mount is a view of, listed by role and then by id, and a warning when
/// some mounts could not be inspected.
pub open spec fn is_report_of(ms: Seq<RawMount>, container: bool, r: StorageReport) -> bool {
    &&& r.schema_version == 1
    &&& r.mount_count == ms.len()
    &&& r.independent_storage_count == r.storage@.len()
    &&& r.inaccessible_paths == 0
    &&& r.hidden_mounts@.len() == hidden_upto(ms, container, ms.len()).len()
    &&& forall|k: int| 0 <= k < r.hidden_mounts@.len() ==> {
            let m = #[trigger] hidden_upto(ms, container, ms.len())[k];
            is_view_of(r.hidden_mounts@[k], m, hidden_reason_for_spec(m, container))
        }
    &&& forall|k: int| 0 <= k < r.storage@.len() ==> is_volume_of(#[trigger] r.storage@[k], ms, container)
    &&& forall|a: int, b: int| 0 <= a < b < r.storage@.len() ==> listed_before(#[trigger] r.storage@[a], #[trigger] r.storage@[b], container)
    &&& forall|j: int| 0 <= j < ms.len() && is_visible(#[trigger] ms[j], container) ==> exists|k: int| 0 <= k < r.storage@.len() && (#[trigger] r.storage@[k]).id@ == group_id(ms[j])
    &&& (stats_errors(ms, ms.len()) == 0 ==> r.warnings@.len() == 0)
    &&& stats_errors(ms, ms.len()) > 0 ==> {
            &&& r.warnings@.len() == 1
            &&& r.warnings@[0].kind@ == "mount_stats"@
            &&& r.warnings@[0].count == stats_errors(ms, ms.len())
            &&& r.warnings@[0].message@ == "Some mounts could not be inspected"@
        }
}

/// The report of the storage behind the mounts of `d`: derived and virtual
/// mounts are listed as hidden; the other mounts are grouped by the storage
/// they are views of, each group giving one volume named after its
/// representative mount, and the volumes are listed by role and then by
/// storage id.
#[verifier::rlimit(100)]
pub fn normalize_for_environment(d: Discovery, container: bool) -> (r: StorageReport)
    ensures
        is_report_of(d.mounts@, container, r),
{
    let ms = &d.mounts;
    let n = ms.len();
    let ghost msv = ms@;
    let mut hidden: Vec<MountView> = Vec::new();
    let mut ids: Vec<Vec<char>> = Vec::new();
    let mut mems: Vec<Vec<usize>> = Vec::new();
    let mut errors: usize = 0;
    let mut i: usize = 0;
    while i < n
        invariant
            i <= n,
            n == msv.len(),
            ms@ == msv,
            errors == stats_errors(msv, i as nat),
            errors <= i,
            hidden@.len() == hidden_upto(msv, container, i as nat).len(),
            forall|k: int| 0 <= k < hidden@.len() ==> {
                let m = #[trigger] hidden_upto(msv, container, i as nat)[k];
                is_view_of(hidden@[k], m, hidden_reason_for_spec(m, container))
            },
            ids.len() == mems.len(),
            forall|a: int, b: int| 0 <= a < b < ids.len() ==> crate::order::seq_lt(#[trigger] ids@[a]@, #[trigger] ids@[b]@),
            forall|g: int| 0 <= g < ids.len() ==> (#[trigger] mems@[g])@ == members(msv, container, ids@[g]@, i as nat),
            forall|g: int| 0 <= g < ids.len() ==> (#[trigger] mems@[g]).len() > 0,
            forall|j: int| 0 <= j < i && is_visible(#[trigger] msv[j], container) ==> exists|g: int| 0 <= g < ids.len() && ids@[g]@ == group_id(msv[j]),
        decreases n - i,
    {
        let m = &ms[i];
        if m.stats_error.is_some() {
            errors = errors + 1;
        }
        let reason = hidden_reason_for(m, container);
        if let Some(rsn) = reason {
            let ghost before = hidden@;
            hidden.push(view(m, Some(rsn)));
            proof {
                assert(hidden_upto(msv, container, (i + 1) as nat) == hidden_upto(msv, container, i as nat).push(msv[i as int]));
                assert forall|k: int| 0 <= k < hidden@.len() implies {
                    let mm = #[trigger] hidden_upto(msv, container, (i + 1) as nat)[k];
                    is_view_of(hidden@[k], mm, hidden_reason_for_spec(mm, container))
                } by {
                    if k < hidden@.len() - 1 {
                        assert(hidden@[k] == before[k]);
                        assert(hidden_upto(msv, container, (i + 1) as nat)[k] == hidden_upto(msv, container, i as nat)[k]);
                    }
                }
            }
            proof {
                assert forall|g: int| 0 <= g < ids.len() implies (#[trigger] mems@[g])@ == members(msv, container, ids@[g]@, (i + 1) as nat) by {
                    assert(!in_group(msv[i as int], container, ids@[g]@));
                }
            }
        } else {
            let gid = group_id_exec(m);
            let mut p: usize = 0;
            while p < ids.len() && crate::order::seq_lt_exec(&ids[p], &gid)
                invariant
                    p <= ids.len(),
                    forall|q: int| 0 <= q < p ==> crate::order::seq_lt(#[trigger] ids@[q]@, gid@),
                decreases ids.len() - p,
            {
                p = p + 1;
            }
            proof {
                assert(hidden_upto(msv, container, (i + 1) as nat) == hidden_upto(msv, container, i as nat));
            }
            if p < ids.len() && crate::text::chars_eq(&ids[p], &gid) {
                let ghost old_mems = mems@;
                let mut v = mems.remove(p);
                v.push(i);
                mems.insert(p, v);
                proof {
                    assert forall|g: int| 0 <= g < ids.len() implies (#[trigger] mems@[g])@ == members(msv, container, ids@[g]@, (i + 1) as nat) by {
                        if g != p {
                            assert(mems@[g] == old_mems[g]);
                            if ids@[g]@ == gid@ {
                                if g < p {
                                    crate::order::lemma_seq_lt_irreflexive(gid@);
                                } else {
                                    assert(crate::order::seq_lt(ids@[p as int]@, ids@[g]@));
                                    crate::order::lemma_seq_lt_irreflexive(gid@);
                                }
                            }
                        }
                    }
                    assert forall|j: int| 0 <= j < i + 1 && is_visible(#[trigger] msv[j], container) implies exists|g: int| 0 <= g < ids.len() && ids@[g]@ == group_id(msv[j]) by {
                        if j == i {
                            assert(ids@[p as int]@ == group_id(msv[j]));
                        }
                    }
                }
            } else {
                let ghost old_ids = ids@;
                let ghost old_mems = mems@;
                proof {
                    // no existing group has this id
                    assert forall|g: int| 0 <= g < old_ids.len() implies old_ids[g]@ != gid@ by {
                        if g < p {
                            crate::order::lemma_seq_lt_irreflexive(gid@);
                        } else {
                            crate::order::lemma_seq_lt_total(old_ids[p as int]@, gid@);
                            crate::order::lemma_seq_lt_asymmetric(gid@, old_ids[p as int]@);
                            if g > p {
                                assert(crate::order::seq_lt(old_ids[p as int]@, old_ids[g]@));
                                if old_ids[g]@ == gid@ {
                                    crate::order::lemma_seq_lt_asymmetric(gid@, old_ids[p as int]@);
                                }
                            }
                        }
                    }
                    assert forall|j: int| 0 <= j < i implies !in_group(msv[j], container, gid@) by {
                        if in_group(msv[j], container, gid@) {
                            let g = choose|g: int| 0 <= g < old_ids.len() && old_ids[g]@ == group_id(msv[j]);
                        }
                    }
                    lemma_members_empty(msv, container, gid@, i as nat);
                    if p < old_ids.len() {
                        crate::order::lemma_seq_lt_total(old_ids[p as int]@, gid@);
                    }
                }
                ids.insert(p, gid);
                mems.insert(p, vec![i]);
                proof {
                    assert forall|a: int, b: int| 0 <= a < b < ids.len() implies crate::order::seq_lt(#[trigger] ids@[a]@, #[trigger] ids@[b]@) by {
                        if b < p {
                            assert(ids@[a] == old_ids[a] && ids@[b] == old_ids[b]);
                        } else if b == p {
                            assert(ids@[a] == old_ids[a]);
                        } else if a == p {
                            assert(ids@[b] == old_ids[b - 1]);
                            if b - 1 > p {
                                assert(crate::order::seq_lt(old_ids[p as int]@, old_ids[b - 1]@));
                                crate::order::lemma_seq_lt_transitive(gid@, old_ids[p as int]@, old_ids[b - 1]@);
                            }
                        } else if a < p {
                            assert(ids@[a] == old_ids[a] && ids@[b] == old_ids[b - 1]);
                        } else {
                            assert(ids@[a] == old_ids[a - 1] && ids@[b] == old_ids[b - 1]);
                        }
                    }
                    assert forall|g: int| 0 <= g < ids.len() implies (#[trigger] mems@[g])@ == members(msv, container, ids@[g]@, (i + 1) as nat) by {
                        if g < p {
                            assert(mems@[g] == old_mems[g] && ids@[g] == old_ids[g]);
                        } else if g > p {
                            assert(mems@[g] == old_mems[g - 1] && ids@[g] == old_ids[g - 1]);
                        } else {
                            assert(mems@[g]@ =~= seq![i]);
                            assert(members(msv, container, gid@, i as nat).push(i) =~= seq![i]);
                        }
                    }
                    assert forall|g: int| 0 <= g < ids.len() implies (#[trigger] mems@[g]).len() > 0 by {
                        if g < p {
                            assert(mems@[g] == old_mems[g]);
                        } else if g > p {
                            assert(mems@[g] == old_mems[g - 1]);
                        }
                    }
                    assert forall|j: int| 0 <= j < i + 1 && is_visible(#[trigger] msv[j], container) implies exists|g: int| 0 <= g < ids.len() && ids@[g]@ == group_id(msv[j]) by {
                        if j == i {
                            assert(ids@[p as int]@ == group_id(msv[j]));
                        } else {
                            let g = choose|g: int| 0 <= g < old_ids.len() && old_ids[g]@ == group_id(msv[j]);
                            if g < p {
                                assert(ids@[g] == old_ids[g]);
                            } else {
                                assert(ids@[g + 1] == old_ids[g]);
                            }
                        }
                    }
                }
            }
        }
        i = i + 1;
    }
    let storage = list_volumes(ms, container, &ids, &mems);
    let count = storage.len();
    let warnings = if errors > 0 {
        vec![Warning {
            kind: "mount_stats".to_string(),
            count: errors,
            message: "Some mounts could not be inspected".to_string(),
        }]
    } else {
        Vec::new()
    };
    let r = StorageReport {
        schema_version: 1,
        storage,
        hidden_mounts: hidden,
        mount_count: n,
        independent_storage_count: count,
        inaccessible_paths: 0,
        warnings,
    };
    proof {
        assert forall|j: int| 0 <= j < n && is_visible(#[trigger] msv[j], container) implies exists|k: int| 0 <= k < r.storage@.len() && (#[trigger] r.storage@[k]).id@ == group_id(msv[j]) by {
            assert(ms@[j] == msv[j]);
            let k = choose|k: int| 0 <= k < r.storage@.len() && (#[trigger] r.storage@[k]).id@ == group_id(ms@[j]);
        }
        assert(is_report_of(msv, container, r));
    }
    r
}

} // verus!

verus! {

/// The mounts look like those of a container: a marker file was found, an
/// Azure session mount is present, or `/`, `/workspace` and a home directory
/// are separate mounts.
pub open spec fn is_container_spec(ms: Seq<RawMount>, marker: bool) -> bool {
    ||| marker
    ||| exists|i: int| 0 <= i < ms.len() && contains_seq((#[trigger] ms[i]).target@, "azure_session_dir"@)
    ||| {
        &&& exists|i: int| 0 <= i < ms.len() && path_eq((#[trigger] ms[i]).target@, "/"@)
        &&& exists|i: int| 0 <= i < ms.len() && path_eq((#[trigger] ms[i]).target@, "/workspace"@)
        &&& exists|i: int| 0 <= i < ms.len() && path_starts_with((#[trigger] ms[i]).target@, "/home/"@)
    }
}

/// Whether the discovered mounts describe a container environment.
pub fn is_container_environment(discovery: &Discovery, marker: bool) -> (r: bool)
    ensures
        r == is_container_spec(discovery.mounts@, marker),
{
    if marker {
        return true;
    }
    let ms = &discovery.mounts;
    let azure = chars_of("azure_session_dir");
    let root = chars_of("/");
    let workspace = chars_of("/workspace");
    let home = chars_of("/home/");
    let mut has_azure = false;
    let mut has_root = false;
    let mut has_workspace = false;
    let mut has_home = false;
    let mut i: usize = 0;
    while i < ms.len()
        invariant
            i <= ms.len(),
            azure@ == "azure_session_dir"@,
            root@ == "/"@,
            workspace@ == "/workspace"@,
            home@ == "/home/"@,
            has_azure == exists|k: int| 0 <= k < i && contains_seq((#[trigger] ms@[k]).target@, "azure_session_dir"@),
            has_root == exists|k: int| 0 <= k < i && path_eq((#[trigger] ms@[k]).target@, "/"@),
            has_workspace == exists|k: int| 0 <= k < i && path_eq((#[trigger] ms@[k]).target@, "/workspace"@),
            has_home == exists|k: int| 0 <= k < i && path_starts_with((#[trigger] ms@[k]).target@, "/home/"@),
        decreases ms.len() - i,
    {
        let t = chars_of(ms[i].target.as_str());
        let a = contains(&t, &azure);
        let b = path_eq_exec(&t, &root);
        let c = path_eq_exec(&t, &workspace);
        let e = path_starts_with_exec(&t, &home);
        proof {
            assert(ms@[i as int].target@ == t@);
        }
        has_azure = has_azure || a;
        has_root = has_root || b;
        has_workspace = has_workspace || c;
        has_home = has_home || e;
        i = i + 1;
    }
    has_azure || (has_root && has_workspace && has_home)
}

/// The report of `d`, with the environment judged from the mounts and
/// `marker`, the presence of a container marker file.
pub fn normalize(d: Discovery, marker: bool) -> (r: StorageReport)
    ensures
        is_report_of(d.mounts@, is_container_spec(d.mounts@, marker), r),
{
    let container = is_container_environment(&d, marker);
    normalize_for_environment(d, container)
}

/// A mount of a filesystem type that holds no user data of its own is
/// never shown as storage.
pub proof fn lemma_virtual_mounts_hidden(m: RawMount, container: bool)
    requires
        is_virtual_fs(m.filesystem@),
    ensures
        !is_visible(m, container),
{
    reveal(hidden_reason_for_spec);
    reveal(hidden_reason_spec);
}

/// The volumes of a report are views of distinct backing storage: no two
/// share an id.
pub proof fn lemma_volume_ids_distinct(ms: Seq<RawMount>, container: bool, r: StorageReport)
    requires
        is_report_of(ms, container, r),
    ensures
        forall|a: int, b: int| 0 <= a < b < r.storage@.len() ==> (#[trigger] r.storage@[a]).id@ != (#[trigger] r.storage@[b]).id@,
{
    assert forall|a: int, b: int| 0 <= a < b < r.storage@.len() implies (#[trigger] r.storage@[a]).id@ != (#[trigger] r.storage@[b]).id@ by {
        let va = r.storage@[a];
        let vb = r.storage@[b];
        assert(listed_before(va, vb, container));
        assert(is_volume_of(va, ms, container));
        assert(is_volume_of(vb, ms, container));
        if va.id@ == vb.id@ {
            reveal(listed_before);
            reveal(is_volume_of);
            crate::order::lemma_seq_lt_irreflexive(va.id@);
        }
    }
}

/// Every mount that is shown belongs to exactly one volume: the one of the
/// storage it is a view of.
pub proof fn lemma_visible_mount_has_one_volume(ms: Seq<RawMount>, container: bool, r: StorageReport, j: int)
    requires
        is_report_of(ms, container, r),
        0 <= j < ms.len(),
        is_visible(ms[j], container),
    ensures
        exists|k: int| 0 <= k < r.storage@.len() && (#[trigger] r.storage@[k]).id@ == group_id(ms[j]),
        forall|k1: int, k2: int|
            0 <= k1 < r.storage@.len() && 0 <= k2 < r.storage@.len() && (#[trigger] r.storage@[k1]).id@ == group_id(ms[j])
                && (#[trigger] r.storage@[k2]).id@ == group_id(ms[j]) ==> k1 == k2,
{
    lemma_volume_ids_distinct(ms, container, r);
    assert forall|k1: int, k2: int|
        0 <= k1 < r.storage@.len() && 0 <= k2 < r.storage@.len() && (#[trigger] r.storage@[k1]).id@ == group_id(ms[j])
            && (#[trigger] r.storage@[k2]).id@ == group_id(ms[j]) implies k1 == k2 by {
        if k1 < k2 {
            assert(r.storage@[k1].id@ != r.storage@[k2].id@);
        } else if k2 < k1 {
            assert(r.storage@[k2].id@ != r.storage@[k1].id@);
        }
    }
}

/// The representative mount of storage `id`: the first of its views.
pub open spec fn representative(ms: Seq<RawMount>, container: bool, id: Seq<char>) -> RawMount {
    ms[group_order(ms, container, id)[0].2 as int]
}

/// Storage `x` is listed before storage `y`: by the priority of its
/// volume's name and mount, then by id.
pub open spec fn id_before(ms: Seq<RawMount>, container: bool, x: Seq<char>, y: Seq<char>) -> bool {
    let rx = representative(ms, container, x);
    let ry = representative(ms, container, y);
    let px = priority(volume_name_spec(rx, container), rx.target@, container);
    let py = priority(volume_name_spec(ry, container), ry.target@, container);
    px < py || (px == py && crate::order::seq_lt(x, y))
}

/// `s` is strictly increasing in the listing order of storage.
pub open spec fn ids_sorted(ms: Seq<RawMount>, container: bool, s: Seq<Seq<char>>) -> bool {
    forall|i: int, j: int| 0 <= i < j < s.len() ==> id_before(ms, container, #[trigger] s[i], #[trigger] s[j])
}

proof fn lemma_id_before_strict(ms: Seq<RawMount>, container: bool, x: Seq<char>, y: Seq<char>)
    ensures
        !id_before(ms, container, x, x),
        id_before(ms, container, x, y) ==> !id_before(ms, container, y, x),
{
    crate::order::lemma_seq_lt_irreflexive(x);
    crate::order::lemma_seq_lt_asymmetric(x, y);
}

proof fn lemma_ids_unique(ms: Seq<RawMount>, container: bool, a: Seq<Seq<char>>, b: Seq<Seq<char>>)
    requires
        ids_sorted(ms, container, a),
        ids_sorted(ms, container, b),
        forall|x: Seq<char>| a.contains(x) <==> b.contains(x),
    ensures
        a == b,
    decreases a.len(),
{
    if a.len() == 0 {
        if b.len() > 0 {
            assert(b.contains(b[0]));
        }
        assert(a =~= b);
    } else {
        assert(a.contains(a[0]));
        let q = choose|q: int| 0 <= q < b.len() && b[q] == a[0];
        assert(b.contains(b[0]));
        let r = choose|r: int| 0 <= r < a.len() && a[r] == b[0];
        if q > 0 {
            assert(id_before(ms, container, b[0], b[q]));
            if r > 0 {
                assert(id_before(ms, container, a[0], a[r]));
                lemma_id_before_strict(ms, container, a[0], b[0]);
            } else {
                lemma_id_before_strict(ms, container, a[0], a[0]);
            }
        }
        assert(b[0] == a[0]);
        let a2 = a.drop_first();
        let b2 = b.drop_first();
        assert forall|x: Seq<char>| a2.contains(x) <==> b2.contains(x) by {
            if a2.contains(x) {
                let i = choose|i: int| 0 <= i < a2.len() && a2[i] == x;
                assert(a[i + 1] == x);
                assert(id_before(ms, container, a[0], a[i + 1]));
                assert(b.contains(x));
                let k = choose|k: int| 0 <= k < b.len() && b[k] == x;
                if k == 0 {
                    lemma_id_before_strict(ms, container, x, x);
                }
                assert(b2[k - 1] == x);
            }
            if b2.contains(x) {
                let i = choose|i: int| 0 <= i < b2.len() && b2[i] == x;
                assert(b[i + 1] == x);
                assert(id_before(ms, container, b[0], b[i + 1]));
                assert(a.contains(x));
                let k = choose|k: int| 0 <= k < a.len() && a[k] == x;
                if k == 0 {
                    lemma_id_before_strict(ms, container, x, x);
                }
                assert(a2[k - 1] == x);
            }
        }
        assert forall|i: int, j: int| 0 <= i < j < a2.len() implies id_before(ms, container, #[trigger] a2[i], #[trigger] a2[j]) by {
            assert(a2[i] == a[i + 1] && a2[j] == a[j + 1]);
        }
        assert forall|i: int, j: int| 0 <= i < j < b2.len() implies id_before(ms, container, #[trigger] b2[i], #[trigger] b2[j]) by {
            assert(b2[i] == b[i + 1] && b2[j] == b[j + 1]);
        }
        lemma_ids_unique(ms, container, a2, b2);
        assert(a =~= b) by {
            assert forall|i: int| 0 <= i < a.len() implies a[i] == b[i] by {
                if i > 0 {
                    assert(a[i] == a2[i - 1] && b[i] == b2[i - 1]);
                }
            }
        }
    }
}

/// The ids of the volumes of `r`, in order.
pub open spec fn volume_ids(r: StorageReport) -> Seq<Seq<char>> {
    r.storage@.map_values(|v: StorageVolume| v.id@)
}

proof fn lemma_report_ids(ms: Seq<RawMount>, container: bool, r: StorageReport)
    requires
        is_report_of(ms, container, r),
        ms.len() <= usize::MAX,
    ensures
        ids_sorted(ms, container, volume_ids(r)),
        forall|x: Seq<char>| #[trigger] volume_ids(r).contains(x) <==> exists|j: int| 0 <= j < ms.len() && is_visible(ms[j], container) && group_id(ms[j]) == x,
{
    let ids = volume_ids(r);
    assert forall|i: int, j: int| 0 <= i < j < ids.len() implies id_before(ms, container, #[trigger] ids[i], #[trigger] ids[j]) by {
        let va = r.storage@[i];
        let vb = r.storage@[j];
        assert(listed_before(va, vb, container));
        assert(is_volume_of(va, ms, container));
        assert(is_volume_of(vb, ms, container));
        reveal(listed_before);
        reveal(is_volume_of);
    }
    assert forall|x: Seq<char>| #[trigger] ids.contains(x) <==> exists|j: int| 0 <= j < ms.len() && is_visible(ms[j], container) && group_id(ms[j]) == x by {
        if ids.contains(x) {
            let k = choose|k: int| 0 <= k < ids.len() && ids[k] == x;
            let v = r.storage@[k];
            assert(is_volume_of(v, ms, container));
            reveal(is_volume_of);
            lemma_group_order_facts(ms, container, x);
            let j = group_order(ms, container, x)[0].2 as int;
            assert(in_group(ms[j], container, x));
        }
        if exists|j: int| 0 <= j < ms.len() && is_visible(ms[j], container) && group_id(ms[j]) == x {
            let j = choose|j: int| 0 <= j < ms.len() && is_visible(ms[j], container) && group_id(ms[j]) == x;
            assert(is_visible(ms[j], container));
            let k = choose|k: int| 0 <= k < r.storage@.len() && (#[trigger] r.storage@[k]).id@ == group_id(ms[j]);
            assert(ids[k] == x);
        }
    }
}

/// `a` and `b` show the same hidden mount.
pub open spec fn same_mount_view(a: MountView, b: MountView) -> bool {
    &&& a.source@ == b.source@
    &&& a.target@ == b.target@
    &&& a.filesystem@ == b.filesystem@
    &&& opt_view(a.device_id) == opt_view(b.device_id)
    &&& opt_view(a.backing_storage_id) == opt_view(b.backing_storage_id)
    &&& a.independent == b.independent
    &&& opt_view(a.hidden_reason) == opt_view(b.hidden_reason)
    &&& a.total_bytes == b.total_bytes
    &&& a.used_bytes == b.used_bytes
    &&& a.available_bytes == b.available_bytes
}

/// `a` and `b` show the same volume.
pub open spec fn same_volume(a: StorageVolume, b: StorageVolume) -> bool {
    &&& a.id@ == b.id@
    &&& a.name@ == b.name@
    &&& a.filesystem@ == b.filesystem@
    &&& a.representative_mount@ == b.representative_mount@
    &&& a.total_bytes == b.total_bytes
    &&& a.used_bytes == b.used_bytes
    &&& a.available_bytes == b.available_bytes
    &&& a.reserved_bytes == b.reserved_bytes
    &&& a.used_percent == b.used_percent
    &&& a.physical == b.physical
    &&& a.removable == b.removable
    &&& a.categories@ == b.categories@
    &&& a.mounts@.len() == b.mounts@.len()
    &&& forall|k: int| 0 <= k < a.mounts@.len() ==> (#[trigger] a.mounts@[k])@ == b.mounts@[k]@
}

/// `a` and `b` are the same report, field by field.
pub open spec fn same_report(a: StorageReport, b: StorageReport) -> bool {
    &&& a.schema_version == b.schema_version
    &&& a.mount_count == b.mount_count
    &&& a.independent_storage_count == b.independent_storage_count
    &&& a.inaccessible_paths == b.inaccessible_paths
    &&& a.warnings@.len() == b.warnings@.len()
    &&& forall|k: int| 0 <= k < a.warnings@.len() ==> {
        &&& (#[trigger] a.warnings@[k]).kind@ == b.warnings@[k].kind@
        &&& a.warnings@[k].count == b.warnings@[k].count
        &&& a.warnings@[k].message@ == b.warnings@[k].message@
    }
    &&& a.hidden_mounts@.len() == b.hidden_mounts@.len()
    &&& forall|k: int| 0 <= k < a.hidden_mounts@.len() ==> same_mount_view(#[trigger] a.hidden_mounts@[k], b.hidden_mounts@[k])
    &&& a.storage@.len() == b.storage@.len()
    &&& forall|k: int| 0 <= k < a.storage@.len() ==> same_volume(#[trigger] a.storage@[k], b.storage@[k])
}

/// The report of a mount table in an environment is fixed: two reports
/// that both describe the mounts `ms` as a container or not are the same,
/// field by field. So `normalize(d, marker)` and
/// `normalize_for_environment(d, is_container_environment(&d, marker))`
/// give the same report.
pub proof fn lemma_report_determined(ms: Seq<RawMount>, container: bool, a: StorageReport, b: StorageReport)
    requires
        ms.len() <= usize::MAX,
        is_report_of(ms, container, a),
        is_report_of(ms, container, b),
    ensures
        same_report(a, b),
{
    lemma_report_ids(ms, container, a);
    lemma_report_ids(ms, container, b);
    let ia = volume_ids(a);
    let ib = volume_ids(b);
    assert forall|x: Seq<char>| ia.contains(x) <==> ib.contains(x) by {
        assert(ia.contains(x) <==> exists|j: int| 0 <= j < ms.len() && is_visible(ms[j], container) && group_id(ms[j]) == x);
        assert(ib.contains(x) <==> exists|j: int| 0 <= j < ms.len() && is_visible(ms[j], container) && group_id(ms[j]) == x);
    }
    lemma_ids_unique(ms, container, ia, ib);
    assert forall|k: int| 0 <= k < a.storage@.len() implies same_volume(#[trigger] a.storage@[k], b.storage@[k]) by {
        assert(ia[k] == ib[k]);
        assert(is_volume_of(a.storage@[k], ms, container));
        assert(is_volume_of(b.storage@[k], ms, container));
        reveal(is_volume_of);
        assert(a.storage@[k].categories@ =~= b.storage@[k].categories@);
    }
    let hs = hidden_upto(ms, container, ms.len());
    assert forall|k: int| 0 <= k < a.hidden_mounts@.len() implies same_mount_view(#[trigger] a.hidden_mounts@[k], b.hidden_mounts@[k]) by {
        let m = hs[k];
        assert(is_view_of(a.hidden_mounts@[k], m, hidden_reason_for_spec(m, container)));
        assert(is_view_of(b.hidden_mounts@[k], m, hidden_reason_for_spec(m, container)));
    }
}

proof fn lemma_hidden_upto_holds(ms: Seq<RawMount>, container: bool, n: nat, j: int)
    requires
        0 <= j < n <= ms.len(),
        !is_visible(ms[j], container),
    ensures
        exists|k: int| 0 <= k < hidden_upto(ms, container, n).len() && hidden_upto(ms, container, n)[k] == ms[j],
    decreases n,
{
    let prev = hidden_upto(ms, container, (n - 1) as nat);
    let cur = hidden_upto(ms, container, n);
    if j < n - 1 {
        lemma_hidden_upto_holds(ms, container, (n - 1) as nat, j);
        let k = choose|k: int| 0 <= k < prev.len() && prev[k] == ms[j];
        if is_visible(ms[n - 1], container) {
            assert(cur == prev);
            assert(0 <= k < cur.len() && cur[k] == ms[j]);
        } else {
            assert(cur == prev.push(ms[n - 1]));
            assert(cur[k] == ms[j]);
            assert(0 <= k < cur.len() && cur[k] == ms[j]);
        }
    } else {
        assert(cur == prev.push(ms[n - 1]));
        assert(cur[prev.len() as int] == ms[j]);
        assert(0 <= prev.len() < cur.len());
    }
}

/// A mount of any of the filesystem types proc, sysfs, tmpfs, devtmpfs,
/// devpts, cgroup, cgroup2, securityfs, overlay, squashfs, tracefs,
/// debugfs, pstore, efivarfs, devfs, configfs, mqueue, bpf, autofs,
/// hugetlbfs, fusectl, binfmt_misc, nsfs and rpc_pipefs is never storage:
/// it is not visible, and the report lists it among its hidden mounts, as
/// a mount that is not independent.
pub proof fn lemma_virtual_filesystems_are_hidden(ms: Seq<RawMount>, container: bool, r: StorageReport, j: int)
    requires
        is_report_of(ms, container, r),
        0 <= j < ms.len(),
        ({
            let fs = ms[j].filesystem@;
            ||| fs == "proc"@ || fs == "sysfs"@ || fs == "tmpfs"@ || fs == "devtmpfs"@
            ||| fs == "devpts"@ || fs == "cgroup"@ || fs == "cgroup2"@ || fs == "securityfs"@
            ||| fs == "overlay"@ || fs == "squashfs"@ || fs == "tracefs"@ || fs == "debugfs"@
            ||| fs == "pstore"@ || fs == "efivarfs"@ || fs == "devfs"@ || fs == "configfs"@
            ||| fs == "mqueue"@ || fs == "bpf"@ || fs == "autofs"@ || fs == "hugetlbfs"@
            ||| fs == "fusectl"@ || fs == "binfmt_misc"@ || fs == "nsfs"@ || fs == "rpc_pipefs"@
        }),
    ensures
        !is_visible(ms[j], container),
        exists|k: int| 0 <= k < r.hidden_mounts@.len() && {
            let v = #[trigger] r.hidden_mounts@[k];
            &&& v.target@ == ms[j].target@
            &&& v.filesystem@ == ms[j].filesystem@
            &&& v.source@ == ms[j].source@
            &&& !v.independent
            &&& v.hidden_reason is Some
        },
{
    reveal(hidden_reason_for_spec);
    reveal(hidden_reason_spec);
    assert(!is_visible(ms[j], container));
    lemma_hidden_upto_holds(ms, container, ms.len(), j);
    let hs = hidden_upto(ms, container, ms.len());
    let k = choose|k: int| 0 <= k < hs.len() && hs[k] == ms[j];
    assert(is_view_of(r.hidden_mounts@[k], hs[k], hidden_reason_for_spec(hs[k], container)));
}

/// Outside the macOS system areas, a mount of one of those filesystem
/// types other than overlay is hidden as a virtual filesystem, and an
/// overlay as a container overlay.
pub proof fn lemma_virtual_filesystem_reason(target: Seq<char>, fs: Seq<char>)
    requires
        !(path_starts_with(target, "/System/Volumes"@) && !path_eq(target, "/System/Volumes/Data"@)),
        !contains_seq(target, "/com.apple.security.cryptexd/mnt/"@),
        !contains_seq(target, "/AppTranslocation/"@),
        ({
            ||| fs == "proc"@ || fs == "sysfs"@ || fs == "tmpfs"@ || fs == "devtmpfs"@
            ||| fs == "devpts"@ || fs == "cgroup"@ || fs == "cgroup2"@ || fs == "securityfs"@
            ||| fs == "overlay"@ || fs == "squashfs"@ || fs == "tracefs"@ || fs == "debugfs"@
            ||| fs == "pstore"@ || fs == "efivarfs"@ || fs == "devfs"@ || fs == "configfs"@
            ||| fs == "mqueue"@ || fs == "bpf"@ || fs == "autofs"@ || fs == "hugetlbfs"@
            ||| fs == "fusectl"@ || fs == "binfmt_misc"@ || fs == "nsfs"@ || fs == "rpc_pipefs"@
        }),
    ensures
        fs == "overlay"@ ==> hidden_reason_spec(target, fs) == Some("container overlay"@),
        fs != "overlay"@ ==> hidden_reason_spec(target, fs) == Some("virtual filesystem"@),
{
    reveal(hidden_reason_spec);
}

/// A mount table in which some mount's target contains
/// `azure_session_dir` is a container environment, whatever the other
/// mounts and the marker.
pub proof fn lemma_azure_session_is_container(ms: Seq<RawMount>, marker: bool, j: int)
    requires
        0 <= j < ms.len(),
        contains_seq(ms[j].target@, "azure_session_dir"@),
    ensures
        is_container_spec(ms, marker),
{
    assert(contains_seq(ms[j].target@, "azure_session_dir"@));
}

/// A container marker, or a root, a `/workspace` and a mount under
/// `/home/` together, make a container environment; with none of these
/// and no `azure_session_dir` mount, the machine is not a container.
pub proof fn lemma_container_signs(ms: Seq<RawMount>, marker: bool)
    ensures
        marker ==> is_container_spec(ms, marker),
        ((exists|i: int| 0 <= i < ms.len() && path_eq((#[trigger] ms[i]).target@, "/"@))
            && (exists|i: int| 0 <= i < ms.len() && path_eq((#[trigger] ms[i]).target@, "/workspace"@))
            && (exists|i: int| 0 <= i < ms.len() && path_starts_with((#[trigger] ms[i]).target@, "/home/"@)))
            ==> is_container_spec(ms, marker),
        (!marker
            && (forall|i: int| 0 <= i < ms.len() ==> !contains_seq((#[trigger] ms[i]).target@, "azure_session_dir"@))
            && (forall|i: int| 0 <= i < ms.len() ==> !path_eq((#[trigger] ms[i]).target@, "/workspace"@)))
            ==> !is_container_spec(ms, marker),
{
}

} // verus!
