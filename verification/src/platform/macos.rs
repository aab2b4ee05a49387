//! macOS mount discovery: the APFS container layout that `diskutil apfs
//! list -plist` describes, and the mount table enriched with it.
use vstd::prelude::*;
use crate::lex::all_digits;
use crate::platform::{Discovery, FilesystemStats, RawMount};
use crate::text::{chars_of, opt_view, push_str, str_is, string_of};

verus! {

/// `plist::Value`, the parsed property list of the `plist` crate; opaque
/// here, it only goes from the reader to the converter below.
#[verifier::external_type_specification]
#[verifier::external_body]
pub struct ExPlistValue(plist::Value);

/// A property-list value, as far as the APFS listing is read: strings,
/// arrays and dictionaries (keys in document order); anything else is
/// `Other`.
#[derive(Debug, PartialEq)]
pub enum PlistValue {
    Array(Vec<PlistValue>),
    Dictionary(Vec<(String, PlistValue)>),
    Text(String),
    Other,
}

/// The property list that the bytes `input` hold, if they hold one.
pub uninterp spec fn plist_document(input: Seq<u8>) -> Option<PlistValue>;

/// Converts a parsed `plist::Value` into the library's value, variant by
/// variant: arrays and dictionaries element by element (dictionary keys in
/// the order the `plist` crate keeps them, that of the document), strings as
/// text, every other kind as `Other`. It carries no contract: nothing is
/// claimed of its result here; `read_plist` states what the conversion
/// yields.
#[verifier::external_body]
fn plist_to_model(v: plist::Value) -> PlistValue {
    match v {
        plist::Value::Array(a) => PlistValue::Array(a.into_iter().map(plist_to_model).collect()),
        plist::Value::Dictionary(d) => PlistValue::Dictionary(
            d.into_iter().map(|(k, v)| (k, plist_to_model(v))).collect(),
        ),
        plist::Value::String(s) => PlistValue::Text(s),
        _ => PlistValue::Other,
    }
}

/// Reads a property list of any encoding with `plist::Value::from_reader`.
/// The claim: the result is the value that the bytes hold, `None` when they
/// hold no property list; what that value is (the plist grammars) is left
/// to the name `plist_document`.
#[verifier::external_body]
fn read_plist(input: &[u8]) -> (r: Option<PlistValue>)
    ensures
        r == plist_document(input@),
{
    match plist::Value::from_reader(std::io::Cursor::new(input)) {
        Ok(v) => Some(plist_to_model(v)),
        Err(_) => None,
    }
}

/// What the APFS listing says of one volume.
#[derive(Debug, PartialEq, Eq)]
pub struct ApfsVolumeInfo {
    pub backing_id: String,
    pub roles: Vec<String>,
    pub name: Option<String>,
}

/// The plain view of a volume's APFS information.
pub type InfoView = (Seq<char>, Seq<Seq<char>>, Option<Seq<char>>);

/// The views of a sequence of strings.
pub open spec fn string_views(v: Seq<String>) -> Seq<Seq<char>> {
    v.map_values(|x: String| x@)
}

/// The plain view of `i`.
pub open spec fn info_view(i: ApfsVolumeInfo) -> InfoView {
    (i.backing_id@, string_views(i.roles@), opt_view(i.name))
}

/// The APFS volumes by device identifier, each device once.
#[derive(Debug)]
pub struct ApfsVolumes {
    entries: Vec<(String, ApfsVolumeInfo)>,
}

/// The information stored for `device` in `e`, the first entry for it.
pub open spec fn lookup_entries(e: Seq<(String, ApfsVolumeInfo)>, device: Seq<char>) -> Option<InfoView>
    decreases e.len(),
{
    if e.len() == 0 {
        None
    } else if e[0].0@ == device {
        Some(info_view(e[0].1))
    } else {
        lookup_entries(e.drop_first(), device)
    }
}

/// No device appears twice in `e`.
pub open spec fn distinct_devices(e: Seq<(String, ApfsVolumeInfo)>) -> bool {
    forall|i: int, j: int| 0 <= i < j < e.len() ==> (#[trigger] e[i]).0@ != (#[trigger] e[j]).0@
}

impl ApfsVolumes {
    /// The devices listed, in the order they were first met.
    pub closed spec fn entries_view(&self) -> Seq<(String, ApfsVolumeInfo)> {
        self.entries@
    }

    /// The information stored for `device`.
    pub open spec fn lookup(&self, device: Seq<char>) -> Option<InfoView> {
        lookup_entries(self.entries_view(), device)
    }

    /// No device is listed twice.
    pub closed spec fn wf(&self) -> bool {
        distinct_devices(self.entries@)
    }

    /// No volumes.
    pub fn new() -> (r: Self)
        ensures
            r.wf(),
            forall|d: Seq<char>| r.lookup(d) is None,
    {
        ApfsVolumes { entries: Vec::new() }
    }

    /// The devices that have information stored.
    pub open spec fn devices(&self) -> Set<Seq<char>> {
        Set::new(|d: Seq<char>| self.lookup(d) is Some)
    }

    /// How many devices are listed.
    pub fn len(&self) -> (r: usize)
        requires
            self.wf(),
        ensures
            r == self.devices().len(),
    {
        proof {
            let e = self.entries@;
            let keys = e.map_values(|x: (String, ApfsVolumeInfo)| x.0@);
            assert(keys.no_duplicates()) by {
                assert forall|i: int, j: int| 0 <= i < keys.len() && 0 <= j < keys.len() && i != j implies keys[i] != keys[j] by {
                    if i < j {
                        assert(e[i].0@ != e[j].0@);
                    } else {
                        assert(e[j].0@ != e[i].0@);
                    }
                }
            }
            keys.unique_seq_to_set();
            assert forall|d: Seq<char>| #[trigger] self.devices().contains(d) <==> keys.to_set().contains(d) by {
                if keys.contains(d) {
                    let k = choose|k: int| 0 <= k < keys.len() && keys[k] == d;
                    lemma_lookup_at(e, k);
                } else {
                    assert forall|k: int| 0 <= k < e.len() implies (#[trigger] e[k]).0@ != d by {
                        assert(keys[k] == e[k].0@);
                    }
                    lemma_lookup_absent(e, d);
                }
            }
            assert(self.devices() =~= keys.to_set());
        }
        self.entries.len()
    }

    /// The information stored for `device`.
    pub fn get(&self, device: &str) -> (r: Option<&ApfsVolumeInfo>)
        ensures
            match r {
                Some(i) => self.lookup(device@) == Some(info_view(*i)),
                None => self.lookup(device@) is None,
            },
    {
        let d = chars_of(device);
        let mut i: usize = 0;
        assert(self.entries@.skip(0) =~= self.entries@);
        while i < self.entries.len()
            invariant
                i <= self.entries@.len(),
                d@ == device@,
                lookup_entries(self.entries@, d@) == lookup_entries(self.entries@.skip(i as int), d@),
            decreases self.entries.len() - i,
        {
            let ghost rest = self.entries@.skip(i as int);
            assert(rest[0] == self.entries@[i as int]);
            assert(rest.drop_first() =~= self.entries@.skip(i + 1));
            if str_is(self.entries[i].0.as_str(), device) {
                assert(d@ == device@);
                return Some(&self.entries[i].1);
            }
            i = i + 1;
        }
        assert(self.entries@.skip(i as int) =~= Seq::<(String, ApfsVolumeInfo)>::empty());
        None
    }

    /// Stores `info` for `device`, in place of what was stored for it.
    pub fn insert(&mut self, device: String, info: ApfsVolumeInfo)
        requires
            old(self).wf(),
        ensures
            final(self).wf(),
            final(self).lookup(device@) == Some(info_view(info)),
            forall|d: Seq<char>| d != device@ ==> #[trigger] final(self).lookup(d) == old(self).lookup(d),
    {
        let ghost old_e = self.entries@;
        let ghost iv = info_view(info);
        let ghost dv = device@;
        let mut i: usize = 0;
        while i < self.entries.len()
            invariant
                i <= self.entries@.len(),
                self.entries@ == old_e,
                old(self).entries@ == old_e,
                distinct_devices(old_e),
                dv == device@,
                iv == info_view(info),
                forall|k: int| 0 <= k < i ==> (#[trigger] old_e[k]).0@ != dv,
            decreases self.entries.len() - i,
        {
            if str_is(self.entries[i].0.as_str(), device.as_str()) {
                let ghost idx = i as int;
                let _ = self.entries.remove(i);
                self.entries.insert(i, (device, info));
                proof {
                    let ne = self.entries@;
                    assert(ne =~= old_e.update(idx, ne[idx]));
                    lemma_lookup_update(old_e, idx, ne[idx]);
                    assert forall|d: Seq<char>| d != dv implies #[trigger] self.lookup(d) == old(self).lookup(d) by {
                        assert(lookup_entries(old_e.update(idx, ne[idx]), d) == lookup_entries(old_e, d));
                        assert(self.entries_view() == ne);
                        assert(old(self).entries_view() == old_e);
                    }
                }
                return;
            }
            i = i + 1;
        }
        self.entries.push((device, info));
        proof {
            lemma_lookup_push(old_e, self.entries@.last());
            assert(self.entries@ == old_e.push(self.entries@.last()));
        }
    }
}

proof fn lemma_lookup_absent(e: Seq<(String, ApfsVolumeInfo)>, d: Seq<char>)
    requires
        forall|k: int| 0 <= k < e.len() ==> (#[trigger] e[k]).0@ != d,
    ensures
        lookup_entries(e, d) is None,
    decreases e.len(),
{
    if e.len() > 0 {
        assert forall|k: int| 0 <= k < e.drop_first().len() implies (#[trigger] e.drop_first()[k]).0@ != d by {
            assert(e.drop_first()[k] == e[k + 1]);
        }
        lemma_lookup_absent(e.drop_first(), d);
    }
}

proof fn lemma_lookup_at(e: Seq<(String, ApfsVolumeInfo)>, idx: int)
    requires
        0 <= idx < e.len(),
        distinct_devices(e),
    ensures
        lookup_entries(e, e[idx].0@) == Some(info_view(e[idx].1)),
    decreases idx,
{
    if idx > 0 {
        let t = e.drop_first();
        assert(t[idx - 1] == e[idx]);
        assert(e[0].0@ != e[idx].0@);
        assert forall|i: int, j: int| 0 <= i < j < t.len() implies (#[trigger] t[i]).0@ != (#[trigger] t[j]).0@ by {
            assert(t[i] == e[i + 1] && t[j] == e[j + 1]);
        }
        lemma_lookup_at(t, idx - 1);
    }
}

proof fn lemma_lookup_update(e: Seq<(String, ApfsVolumeInfo)>, idx: int, x: (String, ApfsVolumeInfo))
    requires
        0 <= idx < e.len(),
        distinct_devices(e),
        x.0@ == e[idx].0@,
    ensures
        distinct_devices(e.update(idx, x)),
        lookup_entries(e.update(idx, x), x.0@) == Some(info_view(x.1)),
        forall|d: Seq<char>| d != x.0@ ==> #[trigger] lookup_entries(e.update(idx, x), d) == lookup_entries(e, d),
    decreases e.len(),
{
    let n = e.update(idx, x);
    assert forall|i: int, j: int| 0 <= i < j < n.len() implies (#[trigger] n[i]).0@ != (#[trigger] n[j]).0@ by {
        if i == idx {
            assert(e[j].0@ != e[idx].0@);
        } else if j == idx {
            assert(e[i].0@ != e[idx].0@);
        }
    }
    lemma_lookup_at(n, idx);
    assert forall|d: Seq<char>| d != x.0@ implies #[trigger] lookup_entries(n, d) == lookup_entries(e, d) by {
        lemma_lookup_other(e, idx, x, d);
    }
}

proof fn lemma_lookup_other(e: Seq<(String, ApfsVolumeInfo)>, idx: int, x: (String, ApfsVolumeInfo), d: Seq<char>)
    requires
        0 <= idx < e.len(),
        x.0@ == e[idx].0@,
        d != x.0@,
    ensures
        lookup_entries(e.update(idx, x), d) == lookup_entries(e, d),
    decreases e.len(),
{
    if idx > 0 {
        assert(e.update(idx, x).drop_first() =~= e.drop_first().update(idx - 1, x));
        lemma_lookup_other(e.drop_first(), idx - 1, x, d);
    } else {
        assert(e.update(idx, x).drop_first() =~= e.drop_first());
    }
}

proof fn lemma_lookup_push(e: Seq<(String, ApfsVolumeInfo)>, x: (String, ApfsVolumeInfo))
    requires
        distinct_devices(e),
        forall|k: int| 0 <= k < e.len() ==> (#[trigger] e[k]).0@ != x.0@,
    ensures
        distinct_devices(e.push(x)),
        lookup_entries(e.push(x), x.0@) == Some(info_view(x.1)),
        forall|d: Seq<char>| d != x.0@ ==> #[trigger] lookup_entries(e.push(x), d) == lookup_entries(e, d),
    decreases e.len(),
{
    let n = e.push(x);
    assert forall|i: int, j: int| 0 <= i < j < n.len() implies (#[trigger] n[i]).0@ != (#[trigger] n[j]).0@ by {
        if j == e.len() {
            assert(n[i] == e[i]);
        }
    }
    lemma_lookup_at(n, e.len() as int);
    assert forall|d: Seq<char>| d != x.0@ implies #[trigger] lookup_entries(n, d) == lookup_entries(e, d) by {
        lemma_lookup_push_other(e, x, d);
    }
}

proof fn lemma_lookup_push_other(e: Seq<(String, ApfsVolumeInfo)>, x: (String, ApfsVolumeInfo), d: Seq<char>)
    requires
        d != x.0@,
    ensures
        lookup_entries(e.push(x), d) == lookup_entries(e, d),
    decreases e.len(),
{
    let ep = e.push(x);
    if e.len() > 0 {
        assert(ep[0] == e[0]);
        assert(ep.drop_first() =~= e.drop_first().push(x));
        lemma_lookup_push_other(e.drop_first(), x, d);
        assert(lookup_entries(ep, d) == if ep[0].0@ == d { Some(info_view(ep[0].1)) } else { lookup_entries(ep.drop_first(), d) });
    } else {
        assert(ep[0] == x);
        assert(e.push(x).drop_first() =~= Seq::<(String, ApfsVolumeInfo)>::empty());
    }
}

} // verus!

verus! {

/// The value stored under `key` in the dictionary entries `d`, the first one.
pub open spec fn dict_lookup(d: Seq<(String, PlistValue)>, key: Seq<char>) -> Option<PlistValue>
    decreases d.len(),
{
    if d.len() == 0 {
        None
    } else if d[0].0@ == key {
        Some(d[0].1)
    } else {
        dict_lookup(d.drop_first(), key)
    }
}

/// The value stored under `key` when `v` is a dictionary.
pub open spec fn field(v: PlistValue, key: Seq<char>) -> Option<PlistValue> {
    match v {
        PlistValue::Dictionary(d) => dict_lookup(d@, key),
        _ => None,
    }
}

/// The text of `v` when it is a string.
pub open spec fn text_of(v: Option<PlistValue>) -> Option<Seq<char>> {
    match v {
        Some(PlistValue::Text(s)) => Some(s@),
        _ => None,
    }
}

/// The items of `v` when it is an array.
pub open spec fn items_of(v: Option<PlistValue>) -> Option<Seq<PlistValue>> {
    match v {
        Some(PlistValue::Array(a)) => Some(a@),
        _ => None,
    }
}

/// The strings among `a`, in order.
pub open spec fn texts_in(a: Seq<PlistValue>) -> Seq<Seq<char>>
    decreases a.len(),
{
    if a.len() == 0 {
        Seq::empty()
    } else {
        let r = texts_in(a.drop_last());
        match a.last() {
            PlistValue::Text(s) => r.push(s@),
            _ => r,
        }
    }
}

/// A device and what the listing says of it.
pub type DeviceEntry = (Seq<char>, InfoView);

/// The entry of volume `vol` of the container `identity`: a dictionary with
/// a device identifier.
pub open spec fn volume_entry(identity: Seq<char>, vol: PlistValue) -> Option<DeviceEntry> {
    match vol {
        PlistValue::Dictionary(_) => match text_of(field(vol, "DeviceIdentifier"@)) {
            Some(dev) => Some(
                (
                    dev,
                    (
                        "apfs:"@ + identity,
                        match items_of(field(vol, "Roles"@)) {
                            Some(a) => texts_in(a),
                            None => Seq::empty(),
                        },
                        text_of(field(vol, "Name"@)),
                    ),
                ),
            ),
            None => None,
        },
        _ => None,
    }
}

/// The entries of the volumes `vols` of container `identity`, in order.
pub open spec fn volume_entries(identity: Seq<char>, vols: Seq<PlistValue>) -> Seq<DeviceEntry>
    decreases vols.len(),
{
    if vols.len() == 0 {
        Seq::empty()
    } else {
        let r = volume_entries(identity, vols.drop_last());
        match volume_entry(identity, vols.last()) {
            Some(e) => r.push(e),
            None => r,
        }
    }
}

/// The identity of a container: its UUID, else its reference.
pub open spec fn container_identity(c: PlistValue) -> Option<Seq<char>> {
    match text_of(field(c, "APFSContainerUUID"@)) {
        Some(s) => Some(s),
        None => text_of(field(c, "ContainerReference"@)),
    }
}

/// The entries of the volumes of container `c`.
pub open spec fn container_entries(c: PlistValue) -> Seq<DeviceEntry> {
    match c {
        PlistValue::Dictionary(_) => match container_identity(c) {
            Some(id) => match items_of(field(c, "Volumes"@)) {
                Some(vols) => volume_entries(id, vols),
                None => Seq::empty(),
            },
            None => Seq::empty(),
        },
        _ => Seq::empty(),
    }
}

/// The entries of all containers, in order.
pub open spec fn all_entries(cs: Seq<PlistValue>) -> Seq<DeviceEntry>
    decreases cs.len(),
{
    if cs.len() == 0 {
        Seq::empty()
    } else {
        all_entries(cs.drop_last()) + container_entries(cs.last())
    }
}

/// What the last entry for `device` says.
pub open spec fn last_entry(es: Seq<DeviceEntry>, device: Seq<char>) -> Option<InfoView>
    decreases es.len(),
{
    if es.len() == 0 {
        None
    } else if es.last().0 == device {
        Some(es.last().1)
    } else {
        last_entry(es.drop_last(), device)
    }
}

/// The containers of an APFS listing: the array under `Containers` of the
/// root dictionary.
pub open spec fn apfs_containers(v: PlistValue) -> Option<Seq<PlistValue>> {
    items_of(field(v, "Containers"@))
}

/// Why an APFS listing could not be read.
#[derive(Debug, Clone, Copy, PartialEq, Eq, Structural)]
pub enum ApfsListError {
    /// The bytes are not a property list.
    Parse,
    /// The property list has no `Containers` array.
    NoContainers,
}

/// `r` is what the listing `v` gives: the volumes of all containers, a
/// later entry for a device replacing an earlier one.
pub open spec fn is_listing_of(v: PlistValue, r: Result<ApfsVolumes, ApfsListError>) -> bool {
    match apfs_containers(v) {
        None => r == Err::<ApfsVolumes, ApfsListError>(ApfsListError::NoContainers),
        Some(cs) => match r {
            Ok(vols) => vols.wf() && forall|d: Seq<char>| #[trigger] vols.lookup(d) == last_entry(all_entries(cs), d),
            Err(_) => false,
        },
    }
}

fn dict_get<'a>(v: &'a PlistValue, key: &str) -> (r: Option<&'a PlistValue>)
    ensures
        match r {
            Some(x) => field(*v, key@) == Some(*x),
            None => field(*v, key@) is None,
        },
{
    match v {
        PlistValue::Dictionary(d) => {
            let mut i: usize = 0;
            assert(d@.skip(0) =~= d@);
            while i < d.len()
                invariant
                    i <= d@.len(),
                    field(*v, key@) == dict_lookup(d@, key@),
                    dict_lookup(d@, key@) == dict_lookup(d@.skip(i as int), key@),
                decreases d.len() - i,
            {
                let ghost rest = d@.skip(i as int);
                assert(rest[0] == d@[i as int]);
                assert(rest.drop_first() =~= d@.skip(i + 1));
                if str_is(d[i].0.as_str(), key) {
                    return Some(&d[i].1);
                }
                i = i + 1;
            }
            assert(d@.skip(i as int) =~= Seq::<(String, PlistValue)>::empty());
            None
        },
        _ => None,
    }
}

fn text_value(v: Option<&PlistValue>) -> (r: Option<&String>)
    ensures
        match r {
            Some(s) => text_of(match v { Some(x) => Some(*x), None => None }) == Some(s@),
            None => text_of(match v { Some(x) => Some(*x), None => None }) is None,
        },
{
    match v {
        Some(PlistValue::Text(s)) => Some(s),
        _ => None,
    }
}

fn items_value(v: Option<&PlistValue>) -> (r: Option<&Vec<PlistValue>>)
    ensures
        match r {
            Some(a) => items_of(match v { Some(x) => Some(*x), None => None }) == Some(a@),
            None => items_of(match v { Some(x) => Some(*x), None => None }) is None,
        },
{
    match v {
        Some(PlistValue::Array(a)) => Some(a),
        _ => None,
    }
}

fn texts_exec(a: &Vec<PlistValue>) -> (r: Vec<String>)
    ensures
        string_views(r@) == texts_in(a@),
{
    let mut out: Vec<String> = Vec::new();
    let mut i: usize = 0;
    assert(a@.take(0) =~= Seq::<PlistValue>::empty());
    while i < a.len()
        invariant
            i <= a.len(),
            string_views(out@) == texts_in(a@.take(i as int)),
        decreases a.len() - i,
    {
        assert(a@.take(i + 1).drop_last() =~= a@.take(i as int));
        assert(a@.take(i + 1).last() == a@[i as int]);
        if let PlistValue::Text(s) = &a[i] {
            let ghost before = string_views(out@);
            out.push(s.clone());
            assert(string_views(out@) =~= before.push(s@));
        }
        i = i + 1;
    }
    assert(a@.take(a.len() as int) =~= a@);
    out
}

fn string_concat(a: &str, b: &str) -> (r: String)
    ensures
        r@ == a@ + b@,
{
    let mut v: Vec<char> = Vec::new();
    push_str(&mut v, a);
    push_str(&mut v, b);
    string_of(&v)
}

fn volume_entry_exec(identity: &String, vol: &PlistValue) -> (r: Option<(String, ApfsVolumeInfo)>)
    ensures
        match r {
            Some(e) => volume_entry(identity@, *vol) == Some((e.0@, info_view(e.1))),
            None => volume_entry(identity@, *vol) is None,
        },
{
    if let PlistValue::Dictionary(_) = vol {
        let device = match text_value(dict_get(vol, "DeviceIdentifier")) {
            Some(d) => d.clone(),
            None => return None,
        };
        let roles = match items_value(dict_get(vol, "Roles")) {
            Some(a) => texts_exec(a),
            None => Vec::new(),
        };
        let name = match text_value(dict_get(vol, "Name")) {
            Some(n) => Some(n.clone()),
            None => None,
        };
        let backing_id = string_concat("apfs:", identity.as_str());
        let info = ApfsVolumeInfo { backing_id, roles, name };
        assert(string_views(info.roles@) =~= match items_of(field(*vol, "Roles"@)) {
            Some(a) => texts_in(a),
            None => Seq::<Seq<char>>::empty(),
        });
        Some((device, info))
    } else {
        None
    }
}

fn container_identity_exec(c: &PlistValue) -> (r: Option<&String>)
    ensures
        match r {
            Some(s) => container_identity(*c) == Some(s@),
            None => container_identity(*c) is None,
        },
{
    match text_value(dict_get(c, "APFSContainerUUID")) {
        Some(s) => Some(s),
        None => text_value(dict_get(c, "ContainerReference")),
    }
}

proof fn lemma_last_entry_push(es: Seq<DeviceEntry>, e: DeviceEntry, d: Seq<char>)
    ensures
        last_entry(es.push(e), d) == if e.0 == d { Some(e.1) } else { last_entry(es, d) },
{
    assert(es.push(e).drop_last() =~= es);
}

proof fn lemma_all_entries_step(cs: Seq<PlistValue>, i: int)
    requires
        0 <= i < cs.len(),
    ensures
        all_entries(cs.take(i + 1)) == all_entries(cs.take(i)) + container_entries(cs[i]),
{
    assert(cs.take(i + 1).drop_last() =~= cs.take(i));
}

/// The APFS volumes that the listing `value` describes.
pub fn apfs_list_from_plist(value: &PlistValue) -> (r: Result<ApfsVolumes, ApfsListError>)
    ensures
        is_listing_of(*value, r),
{
    let cs = match items_value(dict_get(value, "Containers")) {
        Some(a) => a,
        None => return Err(ApfsListError::NoContainers),
    };
    let mut result = ApfsVolumes::new();
    let ghost mut done: Seq<DeviceEntry> = Seq::empty();
    let mut i: usize = 0;
    assert(cs@.take(0) =~= Seq::<PlistValue>::empty());
    while i < cs.len()
        invariant
            i <= cs.len(),
            result.wf(),
            done == all_entries(cs@.take(i as int)),
            forall|d: Seq<char>| #[trigger] result.lookup(d) == last_entry(done, d),
        decreases cs.len() - i,
    {
        proof {
            lemma_all_entries_step(cs@, i as int);
        }
        let c = &cs[i];
        let ghost base = done;
        if let PlistValue::Dictionary(_) = c {
            if let Some(identity) = container_identity_exec(c) {
                if let Some(vols) = items_value(dict_get(c, "Volumes")) {
                    let mut j: usize = 0;
                    assert(vols@.take(0) =~= Seq::<PlistValue>::empty());
                    while j < vols.len()
                        invariant
                            j <= vols.len(),
                            result.wf(),
                            done == base + volume_entries(identity@, vols@.take(j as int)),
                            forall|d: Seq<char>| #[trigger] result.lookup(d) == last_entry(done, d),
                        decreases vols.len() - j,
                    {
                        assert(vols@.take(j + 1).drop_last() =~= vols@.take(j as int));
                        assert(vols@.take(j + 1).last() == vols@[j as int]);
                        match volume_entry_exec(identity, &vols[j]) {
                            Some((device, info)) => {
                                let ghost e = (device@, info_view(info));
                                let ghost old_done = done;
                                result.insert(device, info);
                                proof {
                                    done = old_done.push(e);
                                    assert(base + volume_entries(identity@, vols@.take(j + 1)) =~= (base + volume_entries(identity@, vols@.take(j as int))).push(e));
                                    assert forall|d: Seq<char>| #[trigger] result.lookup(d) == last_entry(done, d) by {
                                        lemma_last_entry_push(old_done, e, d);
                                    }
                                }
                            },
                            None => {},
                        }
                        j = j + 1;
                    }
                    assert(vols@.take(vols.len() as int) =~= vols@);
                }
            }
        }
        proof {
            assert(done =~= base + container_entries(cs@[i as int]));
        }
        i = i + 1;
    }
    assert(cs@.take(cs.len() as int) =~= cs@);
    Ok(result)
}

/// The APFS volumes that the `diskutil apfs list -plist` output `input`
/// describes.
pub fn parse_apfs_list(input: &[u8]) -> (r: Result<ApfsVolumes, ApfsListError>)
    ensures
        match plist_document(input@) {
            None => r == Err::<ApfsVolumes, ApfsListError>(ApfsListError::Parse),
            Some(v) => is_listing_of(v, r),
        },
{
    match read_plist(input) {
        None => Err(ApfsListError::Parse),
        Some(v) => apfs_list_from_plist(&v),
    }
}

} // verus!

verus! {

/// `device` names a slice of `candidate`: `candidate` followed by `s` and
/// a non-empty run of digits (`disk3s1` of `disk3`).
pub open spec fn is_slice_of(device: Seq<char>, candidate: Seq<char>) -> bool {
    &&& device.len() > candidate.len() + 1
    &&& device.take(candidate.len() as int) == candidate
    &&& device[candidate.len() as int] == 's'
    &&& all_digits(device.skip(candidate.len() as int + 1))
}

/// A device is a slice of at most one other device: two candidates that
/// both fit are the same.
pub proof fn lemma_slice_parent_unique(device: Seq<char>, c1: Seq<char>, c2: Seq<char>)
    requires
        is_slice_of(device, c1),
        is_slice_of(device, c2),
    ensures
        c1 == c2,
{
    if c1.len() < c2.len() {
        let k = c2.len() - (c1.len() + 1);
        assert(device.skip(c1.len() as int + 1)[k] == device[c2.len() as int]);
    } else if c2.len() < c1.len() {
        let k = c1.len() - (c2.len() + 1);
        assert(device.skip(c2.len() as int + 1)[k] == device[c1.len() as int]);
    } else {
        assert(c1 =~= device.take(c1.len() as int));
    }
}

impl ApfsVolumes {
    /// Some listed device has `device` as one of its slices.
    pub open spec fn has_slice_parent(&self, device: Seq<char>) -> bool {
        exists|k: int| 0 <= k < self.entries_view().len() && is_slice_of(device, (#[trigger] self.entries_view()[k]).0@)
    }

    /// What is listed for the device of which `device` is a slice.
    pub open spec fn slice_parent(&self, device: Seq<char>) -> InfoView {
        let k = choose|k: int| 0 <= k < self.entries_view().len() && is_slice_of(device, (#[trigger] self.entries_view()[k]).0@);
        info_view(self.entries_view()[k].1)
    }
}

/// The APFS information of `device`: its own entry, else that of the
/// device it is a slice of.
pub open spec fn apfs_info_spec(device: Seq<char>, vols: ApfsVolumes) -> Option<InfoView> {
    match vols.lookup(device) {
        Some(i) => Some(i),
        None => if vols.has_slice_parent(device) {
            Some(vols.slice_parent(device))
        } else {
            None
        },
    }
}

fn is_slice_of_exec(device: &[char], candidate: &[char]) -> (r: bool)
    ensures
        r == is_slice_of(device@, candidate@),
{
    let n = candidate.len();
    if device.len() <= n || device.len() - n < 2 {
        return false;
    }
    let mut i: usize = 0;
    while i < n
        invariant
            i <= n,
            n == candidate.len(),
            n + 1 < device.len(),
            forall|k: int| 0 <= k < i ==> device@[k] == candidate@[k],
        decreases n - i,
    {
        if device[i] != candidate[i] {
            assert(device@.take(n as int)[i as int] != candidate@[i as int]);
            return false;
        }
        i = i + 1;
    }
    assert(device@.take(n as int) =~= candidate@);
    if device[n] != 's' {
        return false;
    }
    let mut j: usize = n + 1;
    while j < device.len()
        invariant
            n + 1 <= j <= device.len(),
            n == candidate.len(),
            forall|k: int| n + 1 <= k < j ==> '0' <= #[trigger] device@[k] && device@[k] <= '9',
        decreases device.len() - j,
    {
        if !('0' <= device[j] && device[j] <= '9') {
            assert(device@.skip(n + 1)[j - (n + 1)] == device@[j as int]);
            return false;
        }
        j = j + 1;
    }
    assert forall|k: int| 0 <= k < device@.skip(n + 1).len() implies '0' <= #[trigger] device@.skip(n + 1)[k] && device@.skip(n + 1)[k] <= '9' by {
        assert(device@.skip(n + 1)[k] == device@[n + 1 + k]);
    }
    true
}

/// The APFS information of `device` in `volumes`: its own entry, else that
/// of the device it is a slice of.
pub fn apfs_info<'a>(device: &str, volumes: &'a ApfsVolumes) -> (r: Option<&'a ApfsVolumeInfo>)
    requires
        volumes.wf(),
    ensures
        match r {
            Some(i) => apfs_info_spec(device@, *volumes) == Some(info_view(*i)),
            None => apfs_info_spec(device@, *volumes) is None,
        },
{
    if let Some(i) = volumes.get(device) {
        return Some(i);
    }
    let d = chars_of(device);
    let mut k: usize = 0;
    while k < volumes.entries.len()
        invariant
            k <= volumes.entries@.len(),
            d@ == device@,
            volumes.wf(),
            volumes.lookup(device@) is None,
            forall|q: int| 0 <= q < k ==> !is_slice_of(d@, (#[trigger] volumes.entries@[q]).0@),
        decreases volumes.entries.len() - k,
    {
        let c = chars_of(volumes.entries[k].0.as_str());
        if is_slice_of_exec(&d, &c) {
            proof {
                let e = volumes.entries_view();
                assert(volumes.has_slice_parent(device@));
                let j = choose|j: int| 0 <= j < e.len() && is_slice_of(device@, (#[trigger] e[j]).0@);
                lemma_slice_parent_unique(device@, e[j].0@, e[k as int].0@);
                if j != k {
                    if j < k {
                        assert(distinct_devices(e));
                    } else {
                        assert(distinct_devices(e));
                    }
                }
            }
            return Some(&volumes.entries[k].1);
        }
        k = k + 1;
    }
    None
}

/// One entry of the macOS mount table, as `getmntinfo` gives it.
#[derive(Debug, Clone, PartialEq, Eq)]
pub struct MountTableEntry {
    pub source: String,
    pub filesystem: String,
    pub target: String,
    pub block_size: u64,
    pub blocks: u64,
    pub free_blocks: u64,
    pub available_blocks: u64,
}

/// The device of a mount source: the source without a leading `/dev/`.
pub open spec fn device_of(source: Seq<char>) -> Seq<char> {
    if source.len() >= 5 && source.take(5) == "/dev/"@ {
        source.skip(5)
    } else {
        source
    }
}

fn device_of_exec(source: &[char]) -> (r: Vec<char>)
    ensures
        r@ == device_of(source@),
{
    let prefix = chars_of("/dev/");
    proof {
        reveal_strlit("/dev/");
    }
    let mut out: Vec<char> = Vec::new();
    if crate::text::starts_with_exec(source, &prefix) {
        let mut i: usize = 5;
        while i < source.len()
            invariant
                5 <= i <= source.len(),
                out@ == source@.subrange(5, i as int),
            decreases source.len() - i,
        {
            out.push(source[i]);
            i = i + 1;
            assert(out@ =~= source@.subrange(5, i as int));
        }
        assert(out@ =~= source@.skip(5));
    } else {
        crate::text::push_all(&mut out, source);
    }
    out
}

} // verus!

verus! {

/// `m` is the raw mount of table entry `e` at position `index`, enriched
/// with the APFS listing when there is one.
pub open spec fn is_mount_of_entry(m: RawMount, e: MountTableEntry, index: int, apfs: Option<ApfsVolumes>) -> bool {
    let device = device_of(e.source@);
    let info = match apfs {
        Some(v) => apfs_info_spec(device, v),
        None => None,
    };
    let total = crate::platform::linux::sat_mul(e.blocks, e.block_size);
    let free = crate::platform::linux::sat_mul(e.free_blocks, e.block_size);
    &&& m.mount_id == index + 1
    &&& m.parent_id == 0
    &&& m.device_id@ == device
    &&& m.root@ == "/"@
    &&& m.target@ == e.target@
    &&& m.mount_options@.len() == 0
    &&& m.filesystem@ == e.filesystem@
    &&& m.source@ == e.source@
    &&& m.super_options@.len() == 0
    &&& m.stats == Some(FilesystemStats {
        total_bytes: total,
        used_bytes: if total >= free { (total - free) as u64 } else { 0 },
        available_bytes: crate::platform::linux::sat_mul(e.available_blocks, e.block_size),
    })
    &&& m.stats_error is None
    &&& opt_view(m.backing_id) == match info {
        Some(i) => Some(i.0),
        None => if e.source@.len() > 0 { Some(e.source@) } else { None },
    }
    &&& opt_view(m.volume_name) == match info {
        Some(i) => i.2,
        None => None,
    }
    &&& !m.removable
}

fn mount_of_entry(e: &MountTableEntry, index: usize, apfs: Option<&ApfsVolumes>) -> (m: RawMount)
    requires
        index < usize::MAX,
        apfs matches Some(v) ==> v.wf(),
    ensures
        is_mount_of_entry(m, *e, index as int, match apfs { Some(v) => Some(*v), None => None }),
{
    let source = chars_of(e.source.as_str());
    let device = device_of_exec(&source);
    let device_s = string_of(&device);
    let info = match apfs {
        Some(v) => apfs_info(device_s.as_str(), v),
        None => None,
    };
    let total = match e.blocks.checked_mul(e.block_size) { Some(x) => x, None => u64::MAX };
    let free = match e.free_blocks.checked_mul(e.block_size) { Some(x) => x, None => u64::MAX };
    let available = match e.available_blocks.checked_mul(e.block_size) { Some(x) => x, None => u64::MAX };
    let backing_id = match info {
        Some(i) => Some(i.backing_id.clone()),
        None => if source.len() > 0 { Some(e.source.clone()) } else { None },
    };
    let volume_name = match info {
        Some(i) => crate::text::clone_opt(&i.name),
        None => None,
    };
    RawMount {
        mount_id: index as u64 + 1,
        parent_id: 0,
        device_id: device_s,
        root: "/".to_string(),
        target: e.target.clone(),
        mount_options: Vec::new(),
        filesystem: e.filesystem.clone(),
        source: e.source.clone(),
        super_options: Vec::new(),
        stats: Some(FilesystemStats {
            total_bytes: total,
            used_bytes: total.saturating_sub(free),
            available_bytes: available,
        }),
        stats_error: None,
        backing_id,
        volume_name,
        removable: false,
    }
}

/// `d` is the discovery made of the mount table `entries`, enriched with
/// the APFS listing, or warning that it was unavailable for the given
/// reason.
pub open spec fn is_discovery_of(d: Discovery, entries: Seq<MountTableEntry>, apfs: Result<ApfsVolumes, String>) -> bool {
    &&& d.mounts@.len() == entries.len()
    &&& forall|i: int| 0 <= i < entries.len() ==> is_mount_of_entry(#[trigger] d.mounts@[i], entries[i], i, match apfs { Ok(v) => Some(v), Err(_) => None })
    &&& match apfs {
        Ok(_) => d.warnings@.len() == 0,
        Err(e) => d.warnings@.len() == 1 && d.warnings@[0]@ == "APFS enrichment unavailable: "@ + e@,
    }
}

/// The discovery made of the mount table `entries`, enriched with the APFS
/// listing, or warning that it was unavailable for the given reason.
pub fn discover(entries: Vec<MountTableEntry>, apfs: Result<ApfsVolumes, String>) -> (d: Discovery)
    requires
        apfs matches Ok(v) ==> v.wf(),
    ensures
        is_discovery_of(d, entries@, apfs),
{
    let vols = match &apfs {
        Ok(v) => Some(v),
        Err(_) => None,
    };
    let mut mounts: Vec<RawMount> = Vec::new();
    let mut i: usize = 0;
    while i < entries.len()
        invariant
            i <= entries.len(),
            vols == match &apfs { Ok(v) => Some(v), Err(_) => None },
            apfs matches Ok(v) ==> v.wf(),
            mounts@.len() == i,
            forall|k: int| 0 <= k < i ==> is_mount_of_entry(#[trigger] mounts@[k], entries@[k], k, match apfs { Ok(v) => Some(v), Err(_) => None }),
        decreases entries.len() - i,
    {
        mounts.push(mount_of_entry(&entries[i], i, vols));
        i = i + 1;
    }
    let warnings = match &apfs {
        Ok(_) => Vec::new(),
        Err(e) => {
            let mut v: Vec<String> = Vec::new();
            v.push(string_concat("APFS enrichment unavailable: ", e.as_str()));
            v
        },
    };
    Discovery { mounts, warnings }
}

} // verus!
