//! Which tape media are online: in reach of a changer.

use vstd::prelude::*;
use vstd::string::StringExecFns;
use crate::error::Error;

verus! {

/// What a slot or a drive of a changer holds.
#[derive(Debug)]
pub enum ElementStatus {
    Empty,
    Full,
    VolumeTag(String),
}

/// A drive of a changer.
#[derive(Debug)]
pub struct DriveStatus {
    pub status: ElementStatus,
}

/// A slot of a changer.
#[derive(Debug)]
pub struct StorageElementStatus {
    /// Whether the slot is one for import and export.
    pub import_export: bool,
    pub status: ElementStatus,
}

/// The state of a changer.
#[derive(Debug)]
pub struct MtxStatus {
    pub drives: Vec<DriveStatus>,
    pub slots: Vec<StorageElementStatus>,
}

/// A medium of the inventory: the text of its label and its id.
#[derive(Debug)]
pub struct MediaLabel {
    pub label_text: String,
    pub uuid: [u8; 16],
}

/// The id of the first medium of the inventory with this label.
pub open spec fn find_media_spec(inventory: Seq<MediaLabel>, label: Seq<char>) -> Option<Seq<u8>>
    decreases inventory.len(),
{
    if inventory.len() == 0 {
        None
    } else if inventory[0].label_text@ == label {
        Some(inventory[0].uuid@)
    } else {
        find_media_spec(inventory.drop_first(), label)
    }
}

/// The id of the first medium of the inventory with this label.
pub fn find_media_by_label_text(inventory: &Vec<MediaLabel>, label: &String) -> (r: Option<[u8; 16]>)
    ensures
        match find_media_spec(inventory@, label@) {
            Some(u) => r is Some && r->0@ == u,
            None => r is None,
        },
{
    let mut i: usize = 0;
    assert(inventory@.skip(0) =~= inventory@);
    while i < inventory.len()
        invariant
            i <= inventory.len(),
            find_media_spec(inventory@, label@) == find_media_spec(
                inventory@.skip(i as int),
                label@,
            ),
        decreases inventory.len() - i,
    {
        proof {
            assert(inventory@.skip(i as int)[0] == inventory@[i as int]);
            assert(inventory@.skip(i as int).drop_first() =~= inventory@.skip(i + 1));
        }
        if inventory[i].label_text == *label {
            return Some(inventory[i].uuid);
        }
        i += 1;
    }
    None
}

/// The set of the ids of a list.
pub open spec fn uuid_set(v: Seq<[u8; 16]>) -> Set<Seq<u8>> {
    Set::new(|u: Seq<u8>| exists|i: int| 0 <= i < v.len() && (#[trigger] v[i])@ == u)
}

/// Whether two ids are the same.
pub fn same_uuid(a: &[u8; 16], b: &[u8; 16]) -> (r: bool)
    ensures
        r == (a@ == b@),
{
    let mut i: usize = 0;
    while i < 16
        invariant
            i <= 16,
            forall|k: int| 0 <= k < i ==> a@[k] == b@[k],
        decreases 16 - i,
    {
        if a[i] != b[i] {
            return false;
        }
        i += 1;
    }
    assert(a@ =~= b@);
    true
}

/// Whether a list of ids holds the id.
pub fn holds_uuid(v: &Vec<[u8; 16]>, uuid: &[u8; 16]) -> (r: bool)
    ensures
        r == uuid_set(v@).contains(uuid@),
{
    let mut i: usize = 0;
    while i < v.len()
        invariant
            i <= v.len(),
            forall|k: int| 0 <= k < i ==> (#[trigger] v@[k])@ != uuid@,
        decreases v.len() - i,
    {
        if same_uuid(&v[i], uuid) {
            return true;
        }
        i += 1;
    }
    false
}

/// The labels that the drives of a changer show, in the order of the
/// drives.
pub open spec fn drive_labels(drives: Seq<DriveStatus>) -> Seq<String>
    decreases drives.len(),
{
    if drives.len() == 0 {
        Seq::empty()
    } else {
        let init = drive_labels(drives.drop_last());
        match drives.last().status {
            ElementStatus::VolumeTag(text) => init.push(text),
            _ => init,
        }
    }
}

/// The labels that the slots of a changer show, in the order of the
/// slots; the slots for import and export are left out.
pub open spec fn slot_labels(slots: Seq<StorageElementStatus>) -> Seq<String>
    decreases slots.len(),
{
    if slots.len() == 0 {
        Seq::empty()
    } else {
        let init = slot_labels(slots.drop_last());
        match slots.last().status {
            ElementStatus::VolumeTag(text) => if slots.last().import_export {
                init
            } else {
                init.push(text)
            },
            _ => init,
        }
    }
}

/// The labels that a changer shows in its drives and in its slots that
/// are not for import and export.
pub open spec fn online_labels(status: MtxStatus) -> Seq<String> {
    drive_labels(status.drives@) + slot_labels(status.slots@)
}

/// The media that a changer has online: the media of the inventory whose
/// labels the changer shows.
pub open spec fn online_set_spec(status: MtxStatus, inventory: Seq<MediaLabel>) -> Set<Seq<u8>> {
    labels_set_spec(online_labels(status), inventory)
}

/// The media that the labels of a list stand for.
pub open spec fn labels_set_spec(labels: Seq<String>, inventory: Seq<MediaLabel>) -> Set<Seq<u8>> {
    Set::new(
        |u: Seq<u8>|
            exists|i: int|
                0 <= i < labels.len() && find_media_spec(inventory, (#[trigger] labels[i])@)
                    == Some(u),
    )
}

/// Adds the medium of a label to a list of ids, if the inventory has it
/// and the list does not.
fn add_label(online_set: &mut Vec<[u8; 16]>, inventory: &Vec<MediaLabel>, label: &String)
    ensures
        uuid_set(final(online_set)@) == match find_media_spec(inventory@, label@) {
            Some(u) => uuid_set(old(online_set)@).insert(u),
            None => uuid_set(old(online_set)@),
        },
{
    match find_media_by_label_text(inventory, label) {
        Some(uuid) => {
            if !holds_uuid(online_set, &uuid) {
                let ghost before = online_set@;
                online_set.push(uuid);
                proof {
                    let after = online_set@;
                    assert forall|u: Seq<u8>| uuid_set(after).contains(u) <==> uuid_set(
                        before,
                    ).insert(uuid@).contains(u) by {
                        if uuid_set(after).contains(u) {
                            let i = choose|i: int| 0 <= i < after.len() && (#[trigger] after[i])@ == u;
                            if i < before.len() {
                                assert(before[i]@ == u);
                            }
                        }
                        if uuid_set(before).contains(u) {
                            let i = choose|i: int|
                                0 <= i < before.len() && (#[trigger] before[i])@ == u;
                            assert(after[i]@ == u);
                        }
                        if u == uuid@ {
                            assert(after[before.len() as int]@ == u);
                        }
                    }
                    assert(uuid_set(after) =~= uuid_set(before).insert(uuid@));
                }
            } else {
                assert(uuid_set(online_set@) =~= uuid_set(online_set@).insert(uuid@));
            }
        },
        None => {},
    }
}

/// The media that a changer has online, as a list of ids without
/// repetitions.
pub fn mtx_status_to_online_set(status: &MtxStatus, inventory: &Vec<MediaLabel>) -> (online_set:
    Vec<[u8; 16]>)
    ensures
        uuid_set(online_set@) == online_set_spec(*status, inventory@),
{
    let mut labels: Vec<String> = Vec::new();
    let mut i: usize = 0;
    assert(status.drives@.take(0) =~= Seq::<DriveStatus>::empty());
    while i < status.drives.len()
        invariant
            i <= status.drives.len(),
            labels@ == drive_labels(status.drives@.take(i as int)),
        decreases status.drives.len() - i,
    {
        proof {
            let t = status.drives@.take(i + 1);
            assert(t.drop_last() =~= status.drives@.take(i as int));
            assert(t.last() == status.drives@[i as int]);
        }
        if let ElementStatus::VolumeTag(ref label_text) = status.drives[i].status {
            labels.push(label_text.clone());
        }
        i += 1;
    }
    assert(status.drives@.take(status.drives.len() as int) =~= status.drives@);
    let ghost from_drives = labels@;
    let mut j: usize = 0;
    proof {
        assert(status.slots@.take(0) =~= Seq::<StorageElementStatus>::empty());
        assert(from_drives + slot_labels(status.slots@.take(0)) =~= from_drives);
    }
    while j < status.slots.len()
        invariant
            j <= status.slots.len(),
            labels@ == from_drives + slot_labels(status.slots@.take(j as int)),
        decreases status.slots.len() - j,
    {
        proof {
            let t = status.slots@.take(j + 1);
            assert(t.drop_last() =~= status.slots@.take(j as int));
            assert(t.last() == status.slots@[j as int]);
        }
        if !status.slots[j].import_export {
            if let ElementStatus::VolumeTag(ref label_text) = status.slots[j].status {
                let ghost before = labels@;
                labels.push(label_text.clone());
                proof {
                    assert(labels@ =~= from_drives + slot_labels(status.slots@.take(j + 1)));
                }
            }
        }
        j += 1;
    }
    assert(status.slots@.take(status.slots.len() as int) =~= status.slots@);
    labels_to_online_set(&labels, inventory)
}

/// The media that the labels of a list stand for, as a list of ids
/// without repetitions.
pub fn labels_to_online_set(label_text_list: &Vec<String>, inventory: &Vec<MediaLabel>) -> (online_set:
    Vec<[u8; 16]>)
    ensures
        uuid_set(online_set@) == labels_set_spec(label_text_list@, inventory@),
{
    let mut online_set: Vec<[u8; 16]> = Vec::new();
    let ghost inv = inventory@;
    let mut i: usize = 0;
    while i < label_text_list.len()
        invariant
            i <= label_text_list.len(),
            inv == inventory@,
            forall|u: Seq<u8>|
                uuid_set(online_set@).contains(u) <==> exists|k: int|
                    0 <= k < i && find_media_spec(inv, (#[trigger] label_text_list@[k])@) == Some(u),
        decreases label_text_list.len() - i,
    {
        let ghost before = uuid_set(online_set@);
        add_label(&mut online_set, inventory, &label_text_list[i]);
        proof {
            let after = uuid_set(online_set@);
            assert forall|u: Seq<u8>| after.contains(u) <==> exists|k: int|
                0 <= k < i + 1 && find_media_spec(inv, (#[trigger] label_text_list@[k])@) == Some(
                    u,
                ) by {
                if after.contains(u) {
                    if before.contains(u) {
                        let k = choose|k: int|
                            0 <= k < i && find_media_spec(inv, (#[trigger] label_text_list@[k])@)
                                == Some(u);
                        assert(find_media_spec(inv, label_text_list@[k]@) == Some(u));
                    } else {
                        assert(find_media_spec(inv, label_text_list@[i as int]@) == Some(u));
                    }
                }
                if exists|k: int|
                    0 <= k < i + 1 && find_media_spec(inv, (#[trigger] label_text_list@[k])@)
                        == Some(u) {
                    let k = choose|k: int|
                        0 <= k < i + 1 && find_media_spec(inv, (#[trigger] label_text_list@[k])@)
                            == Some(u);
                    if k < i {
                        assert(before.contains(u));
                    }
                }
            }
        }
        i += 1;
    }
    proof {
        assert(uuid_set(online_set@) =~= labels_set_spec(label_text_list@, inv));
    }
    online_set
}

/// What is known of the media of a changer: `None` before the changer was
/// asked, else the media it has online.
pub open spec fn online_of(map: Seq<(String, Option<Vec<[u8; 16]>>)>, name: Seq<char>) -> Option<
    Option<Set<Seq<u8>>>,
>
    decreases map.len(),
{
    if map.len() == 0 {
        None
    } else if map.last().0@ == name {
        Some(
            match map.last().1 {
                Some(set) => Some(uuid_set(set@)),
                None => None,
            },
        )
    } else {
        online_of(map.drop_last(), name)
    }
}

/// The changer that has a medium online, if one is known to.
pub open spec fn changer_of(changers: Seq<([u8; 16], String)>, uuid: Seq<u8>) -> Option<Seq<char>>
    decreases changers.len(),
{
    if changers.len() == 0 {
        None
    } else if changers.last().0@ == uuid {
        Some(changers.last().1@)
    } else {
        changer_of(changers.drop_last(), uuid)
    }
}

/// Whether a list of names holds the name.
pub open spec fn names_hold(names: Seq<String>, name: Seq<char>) -> bool {
    exists|i: int| 0 <= i < names.len() && (#[trigger] names[i])@ == name
}

/// A list of names with one more name holds what it held, and that name.
pub proof fn lemma_names_hold_step(names: Seq<String>, i: int, name: Seq<char>)
    requires
        0 <= i < names.len(),
    ensures
        names_hold(names.take(i + 1), name) == (names_hold(names.take(i), name) || names[i]@
            == name),
{
    let t0 = names.take(i);
    let t1 = names.take(i + 1);
    if names_hold(t0, name) {
        let k = choose|k: int| 0 <= k < t0.len() && (#[trigger] t0[k])@ == name;
        assert(t1[k]@ == name);
    }
    if names[i]@ == name {
        assert(t1[i]@ == name);
    }
    if names_hold(t1, name) {
        let k = choose|k: int| 0 <= k < t1.len() && (#[trigger] t1[k])@ == name;
        if k < i {
            assert(t0[k]@ == name);
        }
    }
}

/// A list of ids with one more id holds what it held, and that id.
pub proof fn lemma_uuid_set_step(ids: Seq<[u8; 16]>, i: int, uuid: Seq<u8>)
    requires
        0 <= i < ids.len(),
    ensures
        uuid_set(ids.take(i + 1)).contains(uuid) == (uuid_set(ids.take(i)).contains(uuid)
            || ids[i]@ == uuid),
{
    let t0 = ids.take(i);
    let t1 = ids.take(i + 1);
    if uuid_set(t0).contains(uuid) {
        let k = choose|k: int| 0 <= k < t0.len() && (#[trigger] t0[k])@ == uuid;
        assert(t1[k]@ == uuid);
    }
    if ids[i]@ == uuid {
        assert(t1[i]@ == uuid);
    }
    if uuid_set(t1).contains(uuid) {
        let k = choose|k: int| 0 <= k < t1.len() && (#[trigger] t1[k])@ == uuid;
        if k < i {
            assert(t0[k]@ == uuid);
        }
    }
}

/// Which media are online, changer by changer.
pub struct OnlineStatusMap {
    map: Vec<(String, Option<Vec<[u8; 16]>>)>,
    changer_map: Vec<([u8; 16], String)>,
}

impl OnlineStatusMap {
    /// What is known of the media of a changer.
    pub closed spec fn online(&self, name: Seq<char>) -> Option<Option<Set<Seq<u8>>>> {
        online_of(self.map@, name)
    }

    /// The changer that has a medium online.
    pub closed spec fn changer(&self, uuid: Seq<u8>) -> Option<Seq<char>> {
        changer_of(self.changer_map@, uuid)
    }

    /// A map with one entry for each changer and each virtual tape drive
    /// of the configuration. Nothing is known yet of their media.
    pub fn new(changers: &Vec<String>, vtapes: &Vec<String>) -> (map: OnlineStatusMap)
        ensures
            forall|name: Seq<char>| #[trigger]
                map.online(name) == if names_hold(changers@, name) || names_hold(vtapes@, name) {
                    Some(None::<Set<Seq<u8>>>)
                } else {
                    None
                },
            forall|uuid: Seq<u8>| #[trigger] map.changer(uuid) is None,
    {
        let mut map: Vec<(String, Option<Vec<[u8; 16]>>)> = Vec::new();
        let mut i: usize = 0;
        while i < changers.len()
            invariant
                i <= changers.len(),
                forall|name: Seq<char>| #[trigger]
                    online_of(map@, name) == if names_hold(changers@.take(i as int), name) {
                        Some(None::<Set<Seq<u8>>>)
                    } else {
                        None
                    },
            decreases changers.len() - i,
        {
            let ghost before = map@;
            map.push((changers[i].clone(), None));
            proof {
                assert(map@.drop_last() =~= before);
                let t = changers@.take(i + 1);
                assert forall|name: Seq<char>| #[trigger]
                    online_of(map@, name) == if names_hold(t, name) {
                        Some(None::<Set<Seq<u8>>>)
                    } else {
                        None
                    } by {
                    lemma_names_hold_step(changers@, i as int, name);
                    assert(map@.last().0@ == changers@[i as int]@);
                    assert(online_of(before, name) == if names_hold(
                        changers@.take(i as int),
                        name,
                    ) {
                        Some(None::<Set<Seq<u8>>>)
                    } else {
                        None
                    });
                }
            }
            i += 1;
        }
        assert(changers@.take(changers.len() as int) =~= changers@);
        let mut j: usize = 0;
        while j < vtapes.len()
            invariant
                j <= vtapes.len(),
                forall|name: Seq<char>| #[trigger]
                    online_of(map@, name) == if names_hold(changers@, name) || names_hold(
                        vtapes@.take(j as int),
                        name,
                    ) {
                        Some(None::<Set<Seq<u8>>>)
                    } else {
                        None
                    },
            decreases vtapes.len() - j,
        {
            let ghost before = map@;
            map.push((vtapes[j].clone(), None));
            proof {
                assert(map@.drop_last() =~= before);
                let t = vtapes@.take(j + 1);
                assert forall|name: Seq<char>| #[trigger]
                    online_of(map@, name) == if names_hold(changers@, name) || names_hold(t, name) {
                        Some(None::<Set<Seq<u8>>>)
                    } else {
                        None
                    } by {
                    lemma_names_hold_step(vtapes@, j as int, name);
                    assert(map@.last().0@ == vtapes@[j as int]@);
                    assert(online_of(before, name) == if names_hold(changers@, name) || names_hold(
                        vtapes@.take(j as int),
                        name,
                    ) {
                        Some(None::<Set<Seq<u8>>>)
                    } else {
                        None
                    });
                }
            }
            j += 1;
        }
        assert(vtapes@.take(vtapes.len() as int) =~= vtapes@);
        OnlineStatusMap { map, changer_map: Vec::new() }
    }

    /// The changer that has a medium online, if one is known to.
    pub fn lookup_changer(&self, uuid: &[u8; 16]) -> (r: Option<&String>)
        ensures
            match self.changer(uuid@) {
                Some(name) => r is Some && r->0@ == name,
                None => r is None,
            },
    {
        let mut i: usize = self.changer_map.len();
        assert(self.changer_map@.take(i as int) =~= self.changer_map@);
        while i > 0
            invariant
                i <= self.changer_map.len(),
                changer_of(self.changer_map@, uuid@) == changer_of(
                    self.changer_map@.take(i as int),
                    uuid@,
                ),
            decreases i,
        {
            proof {
                let t = self.changer_map@.take(i as int);
                assert(t.last() == self.changer_map@[i - 1]);
                assert(t.drop_last() =~= self.changer_map@.take(i - 1));
            }
            if same_uuid(&self.changer_map[i - 1].0, uuid) {
                return Some(&self.changer_map[i - 1].1);
            }
            i -= 1;
        }
        None
    }

    /// The place of the last entry of a changer.
    fn find_entry(&self, name: &String) -> (r: Option<usize>)
        ensures
            r is Some <==> self.online(name@) is Some,
            r matches Some(i) ==> i < self.map.len() && self.online(name@) == Some(
                match self.map@[i as int].1 {
                    Some(set) => Some(uuid_set(set@)),
                    None => None,
                },
            ),
    {
        let mut i: usize = self.map.len();
        assert(self.map@.take(i as int) =~= self.map@);
        while i > 0
            invariant
                i <= self.map.len(),
                online_of(self.map@, name@) == online_of(self.map@.take(i as int), name@),
            decreases i,
        {
            proof {
                let t = self.map@.take(i as int);
                assert(t.last() == self.map@[i - 1]);
                assert(t.drop_last() =~= self.map@.take(i - 1));
            }
            if self.map[i - 1].0 == *name {
                return Some(i - 1);
            }
            i -= 1;
        }
        None
    }

    /// The media that each medium's changer is known by: for each medium
    /// the last entry counts.
    pub fn changer_map(&self) -> (r: &Vec<([u8; 16], String)>)
        ensures
            forall|uuid: Seq<u8>| changer_of(r@, uuid) == #[trigger] self.changer(uuid),
    {
        &self.changer_map
    }

    /// What is known of the media of a changer: nothing for a changer that
    /// the map does not know, `None` for one that was not asked yet, else
    /// the media that it has online.
    pub fn online_map(&self, changer_name: &str) -> (r: Option<&Option<Vec<[u8; 16]>>>)
        ensures
            match self.online(changer_name@) {
                None => r is None,
                Some(None) => r is Some && r->0 is None,
                Some(Some(set)) => r is Some && r->0 is Some && uuid_set(r->0->0@) == set,
            },
    {
        let key = String::from_str(changer_name);
        match self.find_entry(&key) {
            None => None,
            Some(i) => Some(&self.map[i].1),
        }
    }

    /// Takes up the media that a changer has online.
    ///
    /// Fails with `NotFound` for a changer that the map does not know, and
    /// with `InvalidInput` for a changer whose media were taken up before:
    /// a second time would leave media with a changer that has them no
    /// more. A failure changes nothing.
    pub fn update_online_status(&mut self, changer_name: &str, online_set: Vec<[u8; 16]>) -> (r:
        Result<(), Error>)
        ensures
            r == match old(self).online(changer_name@) {
                None => Err::<(), Error>(Error::NotFound),
                Some(None) => Ok::<(), Error>(()),
                Some(Some(_)) => Err::<(), Error>(Error::InvalidInput),
            },
            r is Err ==> *final(self) == *old(self),
            r is Ok ==> {
                &&& forall|name: Seq<char>| #[trigger]
                    final(self).online(name) == if name == changer_name@ {
                        Some(Some(uuid_set(online_set@)))
                    } else {
                        old(self).online(name)
                    }
                &&& forall|uuid: Seq<u8>| #[trigger]
                    final(self).changer(uuid) == if uuid_set(online_set@).contains(uuid) {
                        Some(changer_name@)
                    } else {
                        old(self).changer(uuid)
                    }
            },
    {
        let key = String::from_str(changer_name);
        match self.find_entry(&key) {
            None => {
                return Err(Error::NotFound);
            },
            Some(i) => {
                if self.map[i].1.is_some() {
                    return Err(Error::InvalidInput);
                }
            },
        }
        let ghost start = self.changer_map@;
        let mut k: usize = 0;
        while k < online_set.len()
            invariant
                k <= online_set.len(),
                self.map == old(self).map,
                key@ == changer_name@,
                forall|uuid: Seq<u8>| #[trigger]
                    changer_of(self.changer_map@, uuid) == if uuid_set(
                        online_set@.take(k as int),
                    ).contains(uuid) {
                        Some(changer_name@)
                    } else {
                        changer_of(start, uuid)
                    },
            decreases online_set.len() - k,
        {
            let ghost before = self.changer_map@;
            self.changer_map.push((online_set[k], key.clone()));
            proof {
                assert(self.changer_map@.drop_last() =~= before);
                let t0 = online_set@.take(k as int);
                let t1 = online_set@.take(k + 1);
                assert forall|uuid: Seq<u8>| #[trigger]
                    changer_of(self.changer_map@, uuid) == if uuid_set(t1).contains(uuid) {
                        Some(changer_name@)
                    } else {
                        changer_of(start, uuid)
                    } by {
                    lemma_uuid_set_step(online_set@, k as int, uuid);
                    assert(self.changer_map@.last().0@ == online_set@[k as int]@);
                    assert(changer_of(before, uuid) == if uuid_set(t0).contains(uuid) {
                        Some(changer_name@)
                    } else {
                        changer_of(start, uuid)
                    });
                }
            }
            k += 1;
        }
        assert(online_set@.take(online_set.len() as int) =~= online_set@);
        let ghost before = self.map@;
        let ghost set = uuid_set(online_set@);
        self.map.push((key, Some(online_set)));
        proof {
            assert(self.map@.drop_last() =~= before);
        }
        Ok(())
    }
}

/// Takes up the media that one changer has online, given by the labels
/// that the changer shows, into a new map for the changers and virtual
/// tape drives of the configuration.
///
/// Fails with `NotFound` for a changer that the configuration does not
/// know.
pub fn update_changer_online_status(
    changers: &Vec<String>,
    vtapes: &Vec<String>,
    inventory: &Vec<MediaLabel>,
    changer_name: &str,
    label_text_list: &Vec<String>,
) -> (r: Result<OnlineStatusMap, Error>)
    ensures
        r is Ok <==> names_hold(changers@, changer_name@) || names_hold(vtapes@, changer_name@),
        r matches Err(e) ==> e == Error::NotFound,
        r matches Ok(map) ==> {
            &&& map.online(changer_name@) == Some(
                Some(labels_set_spec(label_text_list@, inventory@)),
            )
            &&& forall|uuid: Seq<u8>| #[trigger]
                map.changer(uuid) == if labels_set_spec(label_text_list@, inventory@).contains(
                    uuid,
                ) {
                    Some(changer_name@)
                } else {
                    None
                }
        },
{
    let mut online_map = OnlineStatusMap::new(changers, vtapes);
    let online_set = labels_to_online_set(label_text_list, inventory);
    proof {
        assert(online_map.online(changer_name@) == if names_hold(changers@, changer_name@)
            || names_hold(vtapes@, changer_name@) {
            Some(None::<Set<Seq<u8>>>)
        } else {
            None
        });
    }
    let ghost before = online_map;
    online_map.update_online_status(changer_name, online_set)?;
    proof {
        assert forall|uuid: Seq<u8>| #[trigger]
            online_map.changer(uuid) == if labels_set_spec(label_text_list@, inventory@).contains(
                uuid,
            ) {
                Some(changer_name@)
            } else {
                None
            } by {
            assert(before.changer(uuid) is None);
        }
    }
    Ok(online_map)
}


/// What a changer said when it was asked for its state.
#[derive(Debug)]
pub struct ChangerReport {
    pub name: String,
    /// The state of the changer; `None` where the changer gave no answer.
    pub status: Option<MtxStatus>,
}

/// What a virtual tape drive said when it was asked for its media.
#[derive(Debug)]
pub struct VirtualTapeReport {
    pub name: String,
    /// The labels of the media that the drive has online; `None` where
    /// the drive gave no answer.
    pub labels: Option<Vec<String>>,
}

/// A changer or a virtual tape drive with the media that it has online,
/// if it told.
pub struct AnswerView {
    pub name: Seq<char>,
    pub online: Option<Set<Seq<u8>>>,
}

/// What a changer said, as contracts see it.
pub open spec fn changer_answer(report: ChangerReport, inventory: Seq<MediaLabel>) -> AnswerView {
    AnswerView {
        name: report.name@,
        online: match report.status {
            Some(status) => Some(online_set_spec(status, inventory)),
            None => None,
        },
    }
}

/// What a virtual tape drive said, as contracts see it.
pub open spec fn vtape_answer(report: VirtualTapeReport, inventory: Seq<MediaLabel>) -> AnswerView {
    AnswerView {
        name: report.name@,
        online: match report.labels {
            Some(labels) => Some(labels_set_spec(labels@, inventory)),
            None => None,
        },
    }
}

/// What the changers and then the virtual tape drives said.
pub open spec fn all_answers(
    changers: Seq<ChangerReport>,
    vtapes: Seq<VirtualTapeReport>,
    inventory: Seq<MediaLabel>,
) -> Seq<AnswerView> {
    Seq::new(changers.len(), |i: int| changer_answer(changers[i], inventory)) + Seq::new(
        vtapes.len(),
        |j: int| vtape_answer(vtapes[j], inventory),
    )
}

/// Whether an answer is taken up: it tells the media, and it is of the
/// one changer that the caller asks for, if the caller asks for one.
pub open spec fn is_taken(answer: AnswerView, filter: Option<Seq<char>>) -> bool {
    answer.online is Some && match filter {
        Some(f) => answer.name == f,
        None => true,
    }
}

/// Whether one of the answers is of this name.
pub open spec fn named(answers: Seq<AnswerView>, name: Seq<char>) -> bool {
    exists|i: int| 0 <= i < answers.len() && (#[trigger] answers[i]).name == name
}

/// The media of the last answer of this name that is taken up.
pub open spec fn answer_of(answers: Seq<AnswerView>, filter: Option<Seq<char>>, name: Seq<char>)
    -> Option<Set<Seq<u8>>>
    decreases answers.len(),
{
    if answers.len() == 0 {
        None
    } else if is_taken(answers.last(), filter) && answers.last().name == name {
        answers.last().online
    } else {
        answer_of(answers.drop_last(), filter, name)
    }
}

/// The name of the last answer that is taken up and has the medium.
pub open spec fn holder_of(answers: Seq<AnswerView>, filter: Option<Seq<char>>, uuid: Seq<u8>)
    -> Option<Seq<char>>
    decreases answers.len(),
{
    if answers.len() == 0 {
        None
    } else if is_taken(answers.last(), filter) && answers.last().online->0.contains(uuid) {
        Some(answers.last().name)
    } else {
        holder_of(answers.drop_last(), filter, uuid)
    }
}

/// Whether two of the answers that are taken up are of one name.
pub open spec fn taken_twice(answers: Seq<AnswerView>, filter: Option<Seq<char>>) -> bool
    decreases answers.len(),
{
    if answers.len() == 0 {
        false
    } else {
        taken_twice(answers.drop_last(), filter) || (is_taken(answers.last(), filter) && answer_of(
            answers.drop_last(),
            filter,
            answers.last().name,
        ) is Some)
    }
}

/// Why the answers cannot be taken up: two of them are of one name, or
/// none is of the changer that the caller asks for.
pub open spec fn update_failure(answers: Seq<AnswerView>, filter: Option<Seq<char>>) -> Option<Error> {
    if taken_twice(answers, filter) {
        Some(Error::InvalidInput)
    } else if filter is Some && !named(answers, filter->0) {
        Some(Error::NotFound)
    } else {
        None
    }
}

/// Whether a map knows the changers of `known` and holds the media of the
/// answers of `taken` that are taken up.
pub open spec fn holds_answers(
    map: OnlineStatusMap,
    known: Seq<AnswerView>,
    taken: Seq<AnswerView>,
    filter: Option<Seq<char>>,
) -> bool {
    &&& forall|name: Seq<char>| #[trigger]
        map.online(name) == match answer_of(taken, filter, name) {
            Some(set) => Some(Some(set)),
            None => if named(known, name) {
                Some(None::<Set<Seq<u8>>>)
            } else {
                None
            },
        }
    &&& forall|uuid: Seq<u8>| #[trigger] map.changer(uuid) == holder_of(taken, filter, uuid)
}

/// The name that the caller asks for, as contracts see it.
pub open spec fn filter_view(changer: Option<&str>) -> Option<Seq<char>> {
    match changer {
        Some(c) => Some(c@),
        None => None,
    }
}

/// Two answers of one name stay two answers of one name when more answers
/// come.
pub proof fn lemma_taken_twice_grows(answers: Seq<AnswerView>, k: int, filter: Option<Seq<char>>)
    requires
        0 <= k <= answers.len(),
        taken_twice(answers.take(k), filter),
    ensures
        taken_twice(answers, filter),
    decreases answers.len() - k,
{
    if k < answers.len() {
        assert(answers.take(k + 1).drop_last() =~= answers.take(k));
        lemma_taken_twice_grows(answers, k + 1, filter);
    } else {
        assert(answers.take(k) =~= answers);
    }
}

/// The names of the changers.
fn changer_names(changers: &Vec<ChangerReport>) -> (names: Vec<String>)
    ensures
        names.len() == changers.len(),
        forall|k: int| 0 <= k < names.len() ==> (#[trigger] names[k])@ == changers[k].name@,
{
    let mut names: Vec<String> = Vec::new();
    let mut i: usize = 0;
    while i < changers.len()
        invariant
            i <= changers.len(),
            names.len() == i,
            forall|k: int| 0 <= k < i ==> (#[trigger] names[k])@ == changers[k].name@,
        decreases changers.len() - i,
    {
        names.push(changers[i].name.clone());
        i += 1;
    }
    names
}

/// The names of the virtual tape drives.
fn vtape_names(vtapes: &Vec<VirtualTapeReport>) -> (names: Vec<String>)
    ensures
        names.len() == vtapes.len(),
        forall|k: int| 0 <= k < names.len() ==> (#[trigger] names[k])@ == vtapes[k].name@,
{
    let mut names: Vec<String> = Vec::new();
    let mut i: usize = 0;
    while i < vtapes.len()
        invariant
            i <= vtapes.len(),
            names.len() == i,
            forall|k: int| 0 <= k < i ==> (#[trigger] names[k])@ == vtapes[k].name@,
        decreases vtapes.len() - i,
    {
        names.push(vtapes[i].name.clone());
        i += 1;
    }
    names
}

/// Takes up one answer into the map, if it is one to take up.
///
/// Fails with `InvalidInput` where an answer of this name was taken up
/// before.
fn take_up(
    map: &mut OnlineStatusMap,
    name: &String,
    online_set: Option<Vec<[u8; 16]>>,
    wanted: &Option<String>,
    Ghost(answers): Ghost<Seq<AnswerView>>,
    Ghost(k): Ghost<int>,
) -> (r: Result<(), Error>)
    requires
        0 <= k < answers.len(),
        answers[k].name == name@,
        answers[k].online == match online_set {
            Some(set) => Some(uuid_set(set@)),
            None => None,
        },
        !taken_twice(answers.take(k), string_view(*wanted)),
        holds_answers(*old(map), answers, answers.take(k), string_view(*wanted)),
    ensures
        r is Ok <==> !taken_twice(answers.take(k + 1), string_view(*wanted)),
        r matches Err(e) ==> e == Error::InvalidInput,
        r is Ok ==> holds_answers(*final(map), answers, answers.take(k + 1), string_view(*wanted)),
{
    let ghost filter = string_view(*wanted);
    let ghost t0 = answers.take(k);
    let ghost t1 = answers.take(k + 1);
    proof {
        assert(t1.drop_last() =~= t0);
        assert(t1.last() == answers[k]);
    }
    let asked: bool = match wanted {
        Some(w) => *w == *name,
        None => true,
    };
    if !asked {
        return Ok(());
    }
    let set = match online_set {
        Some(set) => set,
        None => {
            return Ok(());
        },
    };
    let ghost before = *map;
    proof {
        assert(is_taken(answers[k], filter));
        assert(named(answers, name@));
        assert(before.online(name@) == match answer_of(t0, filter, name@) {
            Some(s) => Some(Some(s)),
            None => Some(None::<Set<Seq<u8>>>),
        });
    }
    match map.update_online_status(name.as_str(), set) {
        Ok(()) => {},
        Err(_) => {
            return Err(Error::InvalidInput);
        },
    }
    proof {
        assert forall|n: Seq<char>| #[trigger]
            map.online(n) == match answer_of(t1, filter, n) {
                Some(s) => Some(Some(s)),
                None => if named(answers, n) {
                    Some(None::<Set<Seq<u8>>>)
                } else {
                    None
                },
            } by {
            assert(before.online(n) == match answer_of(t0, filter, n) {
                Some(s) => Some(Some(s)),
                None => if named(answers, n) {
                    Some(None::<Set<Seq<u8>>>)
                } else {
                    None
                },
            });
        }
        assert forall|uuid: Seq<u8>| #[trigger] map.changer(uuid) == holder_of(t1, filter, uuid) by {
            assert(before.changer(uuid) == holder_of(t0, filter, uuid));
        }
    }
    Ok(())
}

/// The text of a name that may be there, as contracts see it.
pub open spec fn string_view(s: Option<String>) -> Option<Seq<char>> {
    match s {
        Some(s) => Some(s@),
        None => None,
    }
}

/// Takes up what the changers and the virtual tape drives said into a new
/// map: for each of them that gave an answer, the media of the inventory
/// whose labels it shows. Where the caller names a changer, only its
/// answer is taken up.
///
/// Fails with `InvalidInput` where two answers that are taken up are of
/// one name, and with `NotFound` where the caller names a changer that is
/// not among them.
pub fn update_online_status(
    changers: &Vec<ChangerReport>,
    vtapes: &Vec<VirtualTapeReport>,
    inventory: &Vec<MediaLabel>,
    changer: Option<&str>,
) -> (r: Result<OnlineStatusMap, Error>)
    ensures
        match update_failure(all_answers(changers@, vtapes@, inventory@), filter_view(changer)) {
            Some(e) => r matches Err(x) && x == e,
            None => r matches Ok(map) && holds_answers(
                map,
                all_answers(changers@, vtapes@, inventory@),
                all_answers(changers@, vtapes@, inventory@),
                filter_view(changer),
            ),
        },
{
    let ghost answers = all_answers(changers@, vtapes@, inventory@);
    let ghost filter = filter_view(changer);
    let wanted: Option<String> = match changer {
        Some(c) => Some(String::from_str(c)),
        None => None,
    };
    let names = changer_names(changers);
    let more_names = vtape_names(vtapes);
    let mut map = OnlineStatusMap::new(&names, &more_names);
    let n: usize = changers.len();
    proof {
        assert(answers.take(0) =~= Seq::<AnswerView>::empty());
        assert forall|name: Seq<char>|
            (names_hold(names@, name) || names_hold(more_names@, name)) == named(
                answers,
                name,
            ) by {
            if names_hold(names@, name) {
                let i = choose|i: int| 0 <= i < names@.len() && (#[trigger] names@[i])@ == name;
                assert(answers[i].name == name);
            }
            if names_hold(more_names@, name) {
                let j = choose|j: int|
                    0 <= j < more_names@.len() && (#[trigger] more_names@[j])@ == name;
                assert(answers[n + j].name == name);
            }
            if named(answers, name) {
                let k = choose|k: int| 0 <= k < answers.len() && (#[trigger] answers[k]).name == name;
                if k < n {
                    assert(names@[k]@ == name);
                } else {
                    assert(more_names@[k - n]@ == name);
                }
            }
        }
        assert forall|name: Seq<char>| #[trigger]
            map.online(name) == match answer_of(answers.take(0), filter, name) {
                Some(set) => Some(Some(set)),
                None => if named(answers, name) {
                    Some(None::<Set<Seq<u8>>>)
                } else {
                    None
                },
            } by {
            assert((names_hold(names@, name) || names_hold(more_names@, name)) == named(
                answers,
                name,
            ));
        }
        assert forall|uuid: Seq<u8>| #[trigger]
            map.changer(uuid) == holder_of(answers.take(0), filter, uuid) by {}
    }
    let mut i: usize = 0;
    while i < changers.len()
        invariant
            i <= changers.len(),
            n == changers.len(),
            answers == all_answers(changers@, vtapes@, inventory@),
            filter == filter_view(changer),
            filter == string_view(wanted),
            !taken_twice(answers.take(i as int), filter),
            holds_answers(map, answers, answers.take(i as int), filter),
        decreases changers.len() - i,
    {
        let report = &changers[i];
        let online_set = match &report.status {
            Some(status) => Some(mtx_status_to_online_set(status, inventory)),
            None => None,
        };
        proof {
            assert(answers[i as int] == changer_answer(changers@[i as int], inventory@));
        }
        match take_up(&mut map, &report.name, online_set, &wanted, Ghost(answers), Ghost(i as int)) {
            Ok(()) => {},
            Err(e) => {
                proof {
                    lemma_taken_twice_grows(answers, i + 1, filter);
                }
                return Err(e);
            },
        }
        i += 1;
    }
    let mut j: usize = 0;
    while j < vtapes.len()
        invariant
            j <= vtapes.len(),
            n == changers.len(),
            answers == all_answers(changers@, vtapes@, inventory@),
            filter == filter_view(changer),
            filter == string_view(wanted),
            !taken_twice(answers.take(n + j), filter),
            holds_answers(map, answers, answers.take(n + j), filter),
        decreases vtapes.len() - j,
    {
        let report = &vtapes[j];
        let online_set = match &report.labels {
            Some(labels) => Some(labels_to_online_set(labels, inventory)),
            None => None,
        };
        proof {
            assert(answers[n + j] == vtape_answer(vtapes@[j as int], inventory@));
        }
        match take_up(&mut map, &report.name, online_set, &wanted, Ghost(answers), Ghost(n + j)) {
            Ok(()) => {},
            Err(e) => {
                proof {
                    lemma_taken_twice_grows(answers, n + j + 1, filter);
                }
                return Err(e);
            },
        }
        j += 1;
    }
    proof {
        assert(answers.take(n + j) =~= answers);
    }
    match &wanted {
        Some(w) => {
            if !holds_name(changers, vtapes, w) {
                proof {
                    assert(!named(answers, w@)) by {
                        if named(answers, w@) {
                            let k = choose|k: int|
                                0 <= k < answers.len() && (#[trigger] answers[k]).name == w@;
                            if k < n {
                                assert(changers@[k].name@ == w@);
                            } else {
                                assert(vtapes@[k - n].name@ == w@);
                            }
                        }
                    }
                }
                return Err(Error::NotFound);
            }
            proof {
                assert(named(answers, w@)) by {
                    if exists|k: int| 0 <= k < changers@.len() && (#[trigger] changers@[k]).name@ == w@ {
                        let k = choose|k: int|
                            0 <= k < changers@.len() && (#[trigger] changers@[k]).name@ == w@;
                        assert(answers[k].name == w@);
                    } else {
                        let k = choose|k: int|
                            0 <= k < vtapes@.len() && (#[trigger] vtapes@[k]).name@ == w@;
                        assert(answers[n + k].name == w@);
                    }
                }
            }
        },
        None => {},
    }
    Ok(map)
}

/// Whether a changer or a virtual tape drive has this name.
fn holds_name(changers: &Vec<ChangerReport>, vtapes: &Vec<VirtualTapeReport>, name: &String) -> (r:
    bool)
    ensures
        r == ((exists|k: int| 0 <= k < changers@.len() && (#[trigger] changers@[k]).name@ == name@)
            || (exists|k: int| 0 <= k < vtapes@.len() && (#[trigger] vtapes@[k]).name@ == name@)),
{
    let mut i: usize = 0;
    while i < changers.len()
        invariant
            i <= changers.len(),
            forall|k: int| 0 <= k < i ==> (#[trigger] changers@[k]).name@ != name@,
        decreases changers.len() - i,
    {
        if changers[i].name == *name {
            return true;
        }
        i += 1;
    }
    let mut j: usize = 0;
    while j < vtapes.len()
        invariant
            j <= vtapes.len(),
            forall|k: int| 0 <= k < changers@.len() ==> (#[trigger] changers@[k]).name@ != name@,
            forall|k: int| 0 <= k < j ==> (#[trigger] vtapes@[k]).name@ != name@,
        decreases vtapes.len() - j,
    {
        if vtapes[j].name == *name {
            return true;
        }
        j += 1;
    }
    false
}

/// The name of the changer to work with: the one that the caller names,
/// or else the changer of the default drive. Fails with `NotFound` where
/// neither is there.
pub fn lookup_changer_name(name: Option<&str>, default_changer: Option<String>) -> (r: Result<
    String,
    Error,
>)
    ensures
        match name {
            Some(n) => r is Ok && r->Ok_0@ == n@,
            None => match default_changer {
                Some(d) => r is Ok && r->Ok_0 == d,
                None => r matches Err(e) && e == Error::NotFound,
            },
        },
{
    if let Some(name) = name {
        return Ok(String::from_str(name));
    }
    match default_changer {
        Some(name) => Ok(name),
        None => Err(Error::NotFound),
    }
}

} // verus!
