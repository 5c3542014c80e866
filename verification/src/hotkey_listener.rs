//! The key-sequence engine: registration, canonicalization, and
//! concurrent-press detection.

use vstd::prelude::*;

use crate::keys::{parse_key_name, parsed_key};
use crate::order::{insert_id_sorted, sorted_unique};

verus! {

/// Which table a failed lookup was aimed at.
#[derive(Debug, PartialEq, Eq, Structural)]
pub enum MapType {
    /// The fingerprint-to-group table.
    Actions,
    /// The action list of one group.
    ActionMapping,
    /// The key-to-fingerprints index.
    ReverseLookup,
}

/// Everything a registration, unregistration or construction can fail with.
#[derive(Debug, PartialEq, Eq, Structural)]
pub enum Error {
    /// The hook collaborator could not be brought up at all.
    HookCreate,
    /// The action is already bound under this fingerprint.
    ActionAlreadyExists,
    /// The named table does not hold what the call needs.
    ActionDoesNotExist(MapType),
    /// A key event arrived for a key no group references.
    KeyNotMapped,
    /// A key of a group is missing from the reverse index.
    MappedKeyMissingInReverseLookup,
    /// A key name the key-code table does not know.
    BadKeyCodeName,
    /// The hook collaborator refused to install a hook.
    CannotRegisterHotkey,
    /// The hook collaborator refused to uninstall a hook.
    CannotUnregisterHotkey,
}

/// The offset a fingerprint computation starts from.
pub const FNV_OFFSET: u64 = 0xcbf29ce484222325;

/// The multiplier of one fingerprint step.
pub const FNV_PRIME: u64 = 0x100000001b3;

/// One step of the fingerprint: fold a byte into the accumulator.
pub open spec fn fnv_step(h: u64, b: u8) -> u64 {
    ((((h ^ (b as u64)) as int) * (FNV_PRIME as int)) % 0x1_0000_0000_0000_0000) as u64
}

/// Folds one key identifier into the accumulator, low byte first.
pub open spec fn fnv_id(h: u64, id: u16) -> u64 {
    fnv_step(fnv_step(h, (id & 0xff) as u8), (id >> 8) as u8)
}

/// Folds a list of key identifiers into the accumulator.
pub open spec fn fnv_ids(h: u64, ids: Seq<u16>) -> u64
    decreases ids.len(),
{
    if ids.len() == 0 {
        h
    } else {
        fnv_ids(fnv_id(h, ids[0]), ids.drop_first())
    }
}

/// The fingerprint of a canonical key list: a 64-bit value deterministic in
/// the list alone. Fingerprint collisions identify two key sets, an accepted
/// approximation.
pub open spec fn spec_hash(ids: Seq<u16>) -> u64 {
    fnv_ids(FNV_OFFSET, ids)
}

/// Computes the fingerprint of a list of key identifiers.
pub fn get_hash(data: &Vec<u16>) -> (r: u64)
    ensures
        r == spec_hash(data@),
{
    let mut h: u64 = FNV_OFFSET;
    let mut i: usize = 0;
    proof {
        assert(data@.skip(0) =~= data@);
    }
    while i < data.len()
        invariant
            i <= data@.len(),
            fnv_ids(h, data@.skip(i as int)) == spec_hash(data@),
        decreases data@.len() - i,
    {
        let id = data[i];
        let lo: u8 = (id & 0xff) as u8;
        let hi: u8 = (id >> 8) as u8;
        let h1 = fnv_mul_step(h, lo);
        let h2 = fnv_mul_step(h1, hi);
        proof {
            assert(data@.skip(i as int)[0] == id);
            assert(data@.skip(i as int).drop_first() =~= data@.skip(i + 1 as int));
            assert(fnv_ids(h, data@.skip(i as int)) == fnv_ids(fnv_id(h, id), data@.skip(i + 1 as int)));
        }
        h = h2;
        i = i + 1;
    }
    proof {
        assert(data@.skip(data@.len() as int) =~= Seq::<u16>::empty());
    }
    h
}

/// One executable fingerprint step, a wrapping multiply.
fn fnv_mul_step(h: u64, b: u8) -> (r: u64)
    ensures
        r == fnv_step(h, b),
{
    let x: u64 = h ^ (b as u64);
    let wide: u128 = (x as u128) * (FNV_PRIME as u128);
    (wide % 0x1_0000_0000_0000_0000u128) as u64
}

/// Whether every name in a list parses to a key identifier.
pub open spec fn all_names_parse(names: Seq<Seq<char>>) -> bool {
    forall|i: int| 0 <= i < names.len() ==> #[trigger] parsed_key(names[i]) is Some
}

/// Whether `id` is the parse of some name in the list.
pub open spec fn names_have_id(names: Seq<Seq<char>>, id: u16) -> bool {
    exists|i: int| 0 <= i < names.len() && #[trigger] parsed_key(names[i]) == Some(id)
}

/// Canonicalizes a collection of key names: parses each name, sorts the
/// resulting identifiers, drops duplicates, and fingerprints the sorted list.
/// The whole call fails if any single name is unrecognized, and then nothing
/// else is reported of the list.
pub fn string_slice_to_vec_and_hash(keys: &[String]) -> (r: Result<(Vec<u16>, u64), Error>)
    ensures
        r is Ok <==> all_names_parse(keys.deep_view()),
        r is Err ==> r == Result::<(Vec<u16>, u64), Error>::Err(Error::BadKeyCodeName),
        r matches Ok(v) ==> {
            &&& sorted_unique(v.0@)
            &&& forall|id: u16| v.0@.contains(id) <==> names_have_id(keys.deep_view(), id)
            &&& v.0@ == spec_canon(keys.deep_view())
            &&& v.1 == spec_hash(v.0@)
            &&& v.1 == spec_fingerprint(keys.deep_view())
        },
{
    let ghost names = keys.deep_view();
    let mut ids: Vec<u16> = Vec::new();
    let mut i: usize = 0;
    while i < keys.len()
        invariant
            i <= names.len(),
            names == keys.deep_view(),
            keys@.len() == names.len(),
            forall|k: int| 0 <= k < i ==> #[trigger] parsed_key(names[k]) is Some,
            sorted_unique(ids@),
            forall|id: u16|
                ids@.contains(id) <==> exists|k: int|
                    0 <= k < i && #[trigger] parsed_key(names[k]) == Some(id),
        decreases keys@.len() - i,
    {
        let name = vstd::slice::slice_index_get(keys, i);
        proof {
            assert(names[i as int] == name@);
        }
        match parse_key_name(name.as_str()) {
            Some(id) => {
                insert_id_sorted(&mut ids, id);
                proof {
                    assert forall|x: u16|
                        ids@.contains(x) <==> exists|k: int|
                            0 <= k < i + 1 && #[trigger] parsed_key(names[k]) == Some(x) by {
                        if ids@.contains(x) {
                            if x == id {
                                assert(parsed_key(names[i as int]) == Some(x));
                            }
                        }
                        if exists|k: int|
                            0 <= k < i + 1 && #[trigger] parsed_key(names[k]) == Some(x) {
                            let k = choose|k: int|
                                0 <= k < i + 1 && #[trigger] parsed_key(names[k]) == Some(x);
                            if k < i {
                                assert(exists|m: int|
                                    0 <= m < i && #[trigger] parsed_key(names[m]) == Some(x));
                            } else {
                                assert(x == id);
                            }
                        }
                    }
                }
            },
            None => {
                return Err(Error::BadKeyCodeName);
            },
        }
        i = i + 1;
    }
    let h = get_hash(&ids);
    proof {
        lemma_canon_is(names, ids@);
    }
    Ok((ids, h))
}

/// The canonical key list of a collection of names: sorted, duplicate-free,
/// holding exactly the identifiers the names parse to.
pub open spec fn spec_canon(names: Seq<Seq<char>>) -> Seq<u16> {
    choose|v: Seq<u16>|
        sorted_unique(v) && (forall|id: u16| #[trigger] v.contains(id) <==> names_have_id(
            names,
            id,
        ))
}

/// The fingerprint of a collection of key names.
pub open spec fn spec_fingerprint(names: Seq<Seq<char>>) -> u64 {
    spec_hash(spec_canon(names))
}

/// Any sorted duplicate-free list whose members are exactly the identifiers
/// the names parse to is the canonical list.
pub proof fn lemma_canon_is(names: Seq<Seq<char>>, v: Seq<u16>)
    requires
        sorted_unique(v),
        forall|id: u16| #[trigger] v.contains(id) <==> names_have_id(names, id),
    ensures
        spec_canon(names) == v,
{
    assert(exists|u: Seq<u16>|
        sorted_unique(u) && (forall|id: u16| #[trigger] u.contains(id) <==> names_have_id(
            names,
            id,
        ))) by {
        assert(sorted_unique(v) && (forall|id: u16| #[trigger] v.contains(id) <==> names_have_id(
            names,
            id,
        )));
    }
    let w = spec_canon(names);
    crate::order::lemma_sorted_unique_equal(w, v);
}

/// Canonicalization is order-independent: two canonical key lists with the
/// same members are the same list, so they fingerprint alike. In particular,
/// canonicalizing two reorderings of one collection of key names yields equal
/// fingerprints.
pub proof fn lemma_fingerprint_order_independent(v1: Seq<u16>, v2: Seq<u16>)
    requires
        sorted_unique(v1),
        sorted_unique(v2),
        forall|id: u16| v1.contains(id) <==> v2.contains(id),
    ensures
        v1 == v2,
        spec_hash(v1) == spec_hash(v2),
{
    crate::order::lemma_sorted_unique_equal(v1, v2);
}

/// The default trigger window, in milliseconds.
pub const DEFAULT_MIN_ELAPSED_MS: u64 = 200;

/// Whether a key whose last observed press is `last` counts as currently held
/// at `now`, under the trigger window `window`. A key never observed pressed
/// is never held; all times are milliseconds on the caller's clock.
pub open spec fn key_held(last: Option<u64>, now: u64, window: u64) -> bool {
    match last {
        Some(t) => t <= now && now - t <= window,
        None => false,
    }
}

/// One constituent key of a group: its identifier and the time it was last
/// observed pressed, or `None` before its first press.
#[derive(Clone, Copy)]
pub struct KeyState {
    pub id: u16,
    pub last_press: Option<u64>,
}

/// Stores all actions associated with a key sequence along with the
/// last-pressed time for each key.
pub struct ActionMapping {
    pub actions: Vec<String>,
    pub keys: Vec<KeyState>,
}

impl ActionMapping {
    /// The key identifiers of this group, in canonical order.
    pub open spec fn key_ids(self) -> Seq<u16> {
        Seq::new(self.keys@.len(), |i: int| self.keys@[i].id)
    }

    /// Whether `id` is a constituent key of this group.
    pub open spec fn has_key(self, id: u16) -> bool {
        self.key_ids().contains(id)
    }

    /// The bound action names, as sequences of characters, in emission order.
    pub open spec fn action_views(self) -> Seq<Seq<char>> {
        self.actions.deep_view()
    }

    /// Whether an action of this name is bound to the group.
    pub open spec fn has_action(self, a: Seq<char>) -> bool {
        self.action_views().contains(a)
    }

    /// The key list is canonical and the action list duplicate-free.
    pub open spec fn wf(self) -> bool {
        &&& sorted_unique(self.key_ids())
        &&& forall|i: int, j: int|
            0 <= i < j < self.actions@.len() ==> self.action_views()[i] != self.action_views()[j]
    }

    /// Whether every constituent key was observed pressed within the window.
    pub open spec fn spec_pressed(self, now: u64, window: u64) -> bool {
        forall|i: int|
            0 <= i < self.keys@.len() ==> key_held(#[trigger] self.keys@[i].last_press, now, window)
    }

    /// How one press of `id` at `now` changes a group: the timestamp of `id`
    /// is set, everything else stays.
    pub open spec fn pressed_from(self, pre: ActionMapping, id: u16, now: u64) -> bool {
        &&& self.actions == pre.actions
        &&& self.keys@.len() == pre.keys@.len()
        &&& forall|i: int|
            0 <= i < pre.keys@.len() ==> #[trigger] self.keys@[i] == (if pre.keys@[i].id == id {
                KeyState { id, last_press: Some(now) }
            } else {
                pre.keys@[i]
            })
    }

    /// Creates a group over a canonical key list, every key seeded as never
    /// pressed, with no actions bound yet.
    pub fn new(keys: &[u16]) -> (r: Self)
        requires
            sorted_unique(keys@),
        ensures
            r.wf(),
            r.actions@.len() == 0,
            r.key_ids() == keys@,
            forall|i: int| 0 <= i < r.keys@.len() ==> r.keys@[i].last_press is None,
    {
        let mut ks: Vec<KeyState> = Vec::new();
        let mut i: usize = 0;
        while i < keys.len()
            invariant
                i <= keys@.len(),
                ks@.len() == i,
                forall|j: int|
                    0 <= j < i ==> ks@[j] == (KeyState { id: keys@[j], last_press: None }),
            decreases keys@.len() - i,
        {
            let id = *vstd::slice::slice_index_get(keys, i);
            ks.push(KeyState { id, last_press: None });
            i = i + 1;
        }
        let r = ActionMapping { actions: Vec::new(), keys: ks };
        proof {
            assert(r.key_ids() =~= keys@);
        }
        r
    }

    /// Updates the last pressed time for a given key, which must be a
    /// constituent of the group.
    pub fn press_key(&mut self, key: &u16, now: u64)
        requires
            old(self).has_key(*key),
        ensures
            final(self).pressed_from(*old(self), *key, now),
    {
        let ghost pre = *self;
        let mut i: usize = 0;
        while i < self.keys.len()
            invariant
                i <= self.keys@.len(),
                self.actions == pre.actions,
                self.keys@.len() == pre.keys@.len(),
                forall|j: int|
                    0 <= j < self.keys@.len() ==> #[trigger] self.keys@[j] == (if j < i
                        && pre.keys@[j].id == *key {
                        KeyState { id: *key, last_press: Some(now) }
                    } else {
                        pre.keys@[j]
                    }),
            decreases self.keys@.len() - i,
        {
            if self.keys[i].id == *key {
                let ks = KeyState { id: *key, last_press: Some(now) };
                self.keys.set(i, ks);
            }
            i = i + 1;
        }
    }

    /// Whether every key's last press lies within `min_elapsed_time` of
    /// `now`: then the whole sequence counts as concurrently pressed.
    pub fn is_pressed(&self, min_elapsed_time: &u64, now: u64) -> (r: bool)
        ensures
            r == self.spec_pressed(now, *min_elapsed_time),
    {
        let mut i: usize = 0;
        while i < self.keys.len()
            invariant
                i <= self.keys@.len(),
                forall|j: int|
                    0 <= j < i ==> key_held(
                        #[trigger] self.keys@[j].last_press,
                        now,
                        *min_elapsed_time,
                    ),
            decreases self.keys@.len() - i,
        {
            let held = match self.keys[i].last_press {
                Some(t) => t <= now && now - t <= *min_elapsed_time,
                None => false,
            };
            if !held {
                return false;
            }
            i = i + 1;
        }
        true
    }

    /// Adds an action to be emitted when the whole sequence is pressed; an
    /// action already bound is refused.
    pub fn add_action(&mut self, action: &String) -> (r: Result<(), Error>)
        ensures
            r is Ok <==> !old(self).has_action(action@),
            r is Err ==> r == Result::<(), Error>::Err(Error::ActionAlreadyExists) && *final(self)
                == *old(self),
            r is Ok ==> final(self).actions@ == old(self).actions@.push(*action) && final(self).keys
                == old(self).keys,
    {
        let mut i: usize = 0;
        while i < self.actions.len()
            invariant
                i <= self.actions@.len(),
                forall|j: int| 0 <= j < i ==> self.action_views()[j] != action@,
            decreases self.actions@.len() - i,
        {
            if self.actions[i] == *action {
                proof {
                    assert(self.action_views()[i as int] == action@);
                }
                return Err(Error::ActionAlreadyExists);
            }
            i = i + 1;
        }
        self.actions.push(action.clone());
        Ok(())
    }

    /// Removes an action from the group; an action not bound is refused.
    pub fn remove_action(&mut self, action: &String) -> (r: Result<(), Error>)
        requires
            old(self).wf(),
        ensures
            r is Ok <==> old(self).has_action(action@),
            r is Err ==> r == Result::<(), Error>::Err(
                Error::ActionDoesNotExist(MapType::ActionMapping),
            ) && *final(self) == *old(self),
            r is Ok ==> final(self).keys == old(self).keys && exists|k: int|
                0 <= k < old(self).actions@.len() && old(self).action_views()[k] == action@
                    && final(self).actions.deep_view() == old(self).action_views().remove(k),
    {
        let mut i: usize = 0;
        while i < self.actions.len()
            invariant
                i <= self.actions@.len(),
                *self == *old(self),
                forall|j: int| 0 <= j < i ==> self.action_views()[j] != action@,
            decreases self.actions@.len() - i,
        {
            if self.actions[i] == *action {
                proof {
                    assert(self.action_views()[i as int] == action@);
                }
                self.actions.remove(i);
                proof {
                    assert(self.actions.deep_view() =~= old(self).action_views().remove(i as int));
                }
                return Ok(());
            }
            i = i + 1;
        }
        Err(Error::ActionDoesNotExist(MapType::ActionMapping))
    }
}

/// One row of the fingerprint-to-group table.
pub struct GroupEntry {
    pub fingerprint: u64,
    pub mapping: ActionMapping,
}

/// One row of the reverse index: a key, the name it was registered under,
/// and every fingerprint whose group contains the key.
pub struct ReverseEntry {
    pub id: u16,
    pub name: String,
    pub fingerprints: Vec<u64>,
}

/// Taking one more element extends the members of a prefix by that element.
proof fn lemma_take_push_contains<A>(s: Seq<A>, t: int)
    requires
        0 <= t < s.len(),
    ensures
        forall|x: A| s.take(t + 1).contains(x) <==> (s.take(t).contains(x) || x == s[t]),
{
    assert(s.take(t + 1) =~= s.take(t).push(s[t]));
    assert forall|x: A| s.take(t + 1).contains(x) <==> (s.take(t).contains(x) || x == s[t]) by {
        if s.take(t).contains(x) {
            let i = choose|i: int| 0 <= i < s.take(t).len() && s.take(t)[i] == x;
            assert(s.take(t + 1)[i] == x);
        }
        if x == s[t] {
            assert(s.take(t + 1)[t] == x);
        }
        if s.take(t + 1).contains(x) {
            let u = s.take(t + 1);
            let i = choose|i: int| 0 <= i < u.len() && #[trigger] u[i] == x;
            if i < t {
                assert(s.take(t)[i] == x);
            }
        }
    }
}

/// Whether recording a press of `key` at `now` leaves every key of the group
/// seen within the window.
pub open spec fn spec_pressed_after(m: ActionMapping, key: u16, now: u64, window: u64) -> bool {
    forall|i: int|
        0 <= i < m.keys@.len() ==> key_held(
            if (#[trigger] m.keys@[i]).id == key {
                Some(now)
            } else {
                m.keys@[i].last_press
            },
            now,
            window,
        )
}

/// How delivering `key` at `now` moves the group table: every group
/// containing the key records the press, every other group is untouched,
/// and nothing else moves.
pub open spec fn stepped_groups(pre: HotkeyListener, post: HotkeyListener, key: u16, now: u64) -> bool {
    &&& post.actions@.len() == pre.actions@.len()
    &&& forall|i: int|
        0 <= i < pre.actions@.len() ==> {
            let a0 = pre.actions@[i];
            let a1 = #[trigger] post.actions@[i];
            &&& a1.fingerprint == a0.fingerprint
            &&& (if a0.mapping.has_key(key) {
                a1.mapping.pressed_from(a0.mapping, key, now)
            } else {
                a1.mapping == a0.mapping
            })
        }
}

/// What one poll may do: either no event was pending and nothing moved, or
/// one key event was drained and the group table stepped by it.
pub open spec fn poll_step(
    pre: HotkeyListener,
    post: HotkeyListener,
    e: Option<u16>,
    now: u64,
) -> bool {
    match e {
        Some(key) => stepped_groups(pre, post, key, now),
        None => post == pre,
    }
}

/// A list of fingerprints with no repetitions.
pub open spec fn fps_unique(s: Seq<u64>) -> bool {
    forall|i: int, j: int| 0 <= i < j < s.len() ==> s[i] != s[j]
}

/// Listens for hotkeys being pressed. If a registered sequence of keys is
/// pressed within the trigger window, the actions associated with the key
/// sequence are emitted.
pub struct HotkeyListener {
    pub actions: Vec<GroupEntry>,
    pub reverse_lookup: Vec<ReverseEntry>,
    pub min_elapsed_time: u64,
    pub callback_sender: crossbeam_channel::Sender<u16>,
    pub callback_receiver: crossbeam_channel::Receiver<u16>,
    pub listener_sender: crossbeam_channel::Sender<String>,
}

impl HotkeyListener {
    /// Whether a group is registered under this fingerprint.
    pub open spec fn has_group(self, f: u64) -> bool {
        exists|i: int| 0 <= i < self.actions@.len() && (#[trigger] self.actions@[i]).fingerprint == f
    }

    /// The table row of the group registered under `f`.
    pub open spec fn group_index(self, f: u64) -> int {
        choose|i: int| 0 <= i < self.actions@.len() && (#[trigger] self.actions@[i]).fingerprint == f
    }

    /// The group registered under `f`.
    pub open spec fn group_at(self, f: u64) -> ActionMapping {
        self.actions@[self.group_index(f)].mapping
    }

    /// Whether the reverse index has a row for this key.
    pub open spec fn has_rev(self, id: u16) -> bool {
        exists|i: int|
            0 <= i < self.reverse_lookup@.len() && (#[trigger] self.reverse_lookup@[i]).id == id
    }

    /// The index row for this key.
    pub open spec fn rev_index(self, id: u16) -> int {
        choose|i: int|
            0 <= i < self.reverse_lookup@.len() && (#[trigger] self.reverse_lookup@[i]).id == id
    }

    /// The reverse-index entry of this key.
    pub open spec fn rev_at(self, id: u16) -> ReverseEntry {
        self.reverse_lookup@[self.rev_index(id)]
    }

    /// No two rows of the group table share a fingerprint.
    pub open spec fn groups_unique(self) -> bool {
        forall|i: int, j: int|
            0 <= i < j < self.actions@.len() ==> (#[trigger] self.actions@[i]).fingerprint != (
            #[trigger] self.actions@[j]).fingerprint
    }

    /// No two rows of the reverse index share a key.
    pub open spec fn revs_unique(self) -> bool {
        forall|i: int, j: int|
            0 <= i < j < self.reverse_lookup@.len() ==> (#[trigger] self.reverse_lookup@[i]).id != (
            #[trigger] self.reverse_lookup@[j]).id
    }

    /// Every fingerprint listed under a key belongs to a registered group
    /// that contains that key.
    pub open spec fn rev_coherent(self) -> bool {
        forall|i: int, k: int|
            #![trigger self.reverse_lookup@[i].fingerprints@[k]]
            (0 <= i < self.reverse_lookup@.len() && 0 <= k
                < self.reverse_lookup@[i].fingerprints@.len()) ==> {
                let f = self.reverse_lookup@[i].fingerprints@[k];
                &&& self.has_group(f)
                &&& self.group_at(f).has_key(self.reverse_lookup@[i].id)
            }
    }

    /// Every key of every group is indexed, and its row lists the group.
    pub open spec fn groups_indexed(self) -> bool {
        forall|i: int, k: int|
            #![trigger self.actions@[i].mapping.keys@[k]]
            (0 <= i < self.actions@.len() && 0 <= k < self.actions@[i].mapping.keys@.len()) ==> {
                let id = self.actions@[i].mapping.keys@[k].id;
                &&& self.has_rev(id)
                &&& self.rev_at(id).fingerprints@.contains(self.actions@[i].fingerprint)
            }
    }

    /// The engine's tables are well formed: fingerprints and keys are unique
    /// in their tables, every group is well formed, non-empty, and keyed by
    /// the fingerprint of its own key list, every index row is non-empty and
    /// duplicate-free, its name parses to its key, and the two tables agree:
    /// a key is listed under a fingerprint if and only if the group with
    /// that fingerprint exists and contains the key.
    pub open spec fn wf(self) -> bool {
        &&& self.groups_unique()
        &&& forall|i: int|
            0 <= i < self.actions@.len() ==> (#[trigger] self.actions@[i]).mapping.wf()
                && self.actions@[i].mapping.actions@.len() > 0 && self.actions@[i].fingerprint
                == spec_hash(self.actions@[i].mapping.key_ids())
        &&& self.revs_unique()
        &&& forall|i: int|
            0 <= i < self.reverse_lookup@.len() ==> {
                let e = #[trigger] self.reverse_lookup@[i];
                &&& fps_unique(e.fingerprints@)
                &&& e.fingerprints@.len() > 0
                &&& parsed_key(e.name@) == Some(e.id)
            }
        &&& self.rev_coherent()
        &&& self.groups_indexed()
    }

    /// Whether two engine states hold the same tables and settings.
    pub open spec fn same_state(self, other: HotkeyListener) -> bool {
        &&& self.actions@ == other.actions@
        &&& self.reverse_lookup@ == other.reverse_lookup@
        &&& self.min_elapsed_time == other.min_elapsed_time
        &&& self.callback_sender == other.callback_sender
        &&& self.callback_receiver == other.callback_receiver
        &&& self.listener_sender == other.listener_sender
    }

    /// Whether only the two tables changed between two states.
    pub open spec fn same_config(self, other: HotkeyListener) -> bool {
        &&& self.min_elapsed_time == other.min_elapsed_time
        &&& self.callback_sender == other.callback_sender
        &&& self.callback_receiver == other.callback_receiver
        &&& self.listener_sender == other.listener_sender
    }

    /// A unique fingerprint pins its row: the spec-level lookup agrees with
    /// any row that holds `f`.
    pub proof fn lemma_group_index_is(self, f: u64, i: int)
        requires
            self.groups_unique(),
            0 <= i < self.actions@.len(),
            self.actions@[i].fingerprint == f,
        ensures
            self.has_group(f),
            self.group_index(f) == i,
            self.group_at(f) == self.actions@[i].mapping,
    {
        assert(self.has_group(f));
        let j = self.group_index(f);
        if j != i {
            assert(self.actions@[j].fingerprint == f);
        }
    }

    /// A unique key pins its index row.
    pub proof fn lemma_rev_index_is(self, id: u16, i: int)
        requires
            self.revs_unique(),
            0 <= i < self.reverse_lookup@.len(),
            self.reverse_lookup@[i].id == id,
        ensures
            self.has_rev(id),
            self.rev_index(id) == i,
            self.rev_at(id) == self.reverse_lookup@[i],
    {
        assert(self.has_rev(id));
        let j = self.rev_index(id);
        if j != i {
            assert(self.reverse_lookup@[j].id == id);
        }
    }

    /// Replacing one index row by a row for the same key leaves every other
    /// row, and the set of indexed keys, as they were.
    pub proof fn lemma_rev_update(self, post: HotkeyListener, ri: int, e1: ReverseEntry)
        requires
            self.revs_unique(),
            0 <= ri < self.reverse_lookup@.len(),
            e1.id == self.reverse_lookup@[ri].id,
            post.reverse_lookup@ == self.reverse_lookup@.update(ri, e1),
        ensures
            post.revs_unique(),
            forall|id: u16| post.has_rev(id) <==> self.has_rev(id),
            forall|id: u16|
                self.has_rev(id) && id != e1.id ==> post.rev_at(id) == self.rev_at(id),
            post.has_rev(e1.id),
            post.rev_at(e1.id) == e1,
    {
        assert(forall|j: int|
            0 <= j < post.reverse_lookup@.len() ==> (#[trigger] post.reverse_lookup@[j]).id == (
            #[trigger] self.reverse_lookup@[j]).id);
        assert(post.revs_unique());
        assert forall|id: u16| post.has_rev(id) <==> self.has_rev(id) by {
            if post.has_rev(id) {
                let j = post.rev_index(id);
                assert(self.reverse_lookup@[j].id == id);
            }
            if self.has_rev(id) {
                let j = self.rev_index(id);
                assert(post.reverse_lookup@[j].id == id);
            }
        }
        assert forall|id: u16| self.has_rev(id) && id != e1.id implies post.rev_at(id)
            == self.rev_at(id) by {
            let j = self.rev_index(id);
            assert(j != ri);
            assert(post.reverse_lookup@[j] == self.reverse_lookup@[j]);
            post.lemma_rev_index_is(id, j);
        }
        assert(post.reverse_lookup@[ri] == e1);
        post.lemma_rev_index_is(e1.id, ri);
    }

    /// Dropping one index row withdraws exactly its key from the index and
    /// leaves every other row as it was.
    pub proof fn lemma_rev_drop(self, post: HotkeyListener, ri: int)
        requires
            self.revs_unique(),
            0 <= ri < self.reverse_lookup@.len(),
            post.reverse_lookup@ == self.reverse_lookup@.remove(ri),
        ensures
            post.revs_unique(),
            forall|id: u16|
                post.has_rev(id) <==> (self.has_rev(id) && id != self.reverse_lookup@[ri].id),
            forall|id: u16| post.has_rev(id) ==> post.rev_at(id) == self.rev_at(id),
    {
        let rid = self.reverse_lookup@[ri].id;
        assert forall|j: int| 0 <= j < post.reverse_lookup@.len() implies post.reverse_lookup@[j]
            == (if j < ri {
            self.reverse_lookup@[j]
        } else {
            self.reverse_lookup@[j + 1]
        }) by {}
        assert forall|j1: int, j2: int| 0 <= j1 < j2 < post.reverse_lookup@.len() implies (
        #[trigger] post.reverse_lookup@[j1]).id != (#[trigger] post.reverse_lookup@[j2]).id by {
            let p1 = if j1 < ri {
                j1
            } else {
                j1 + 1
            };
            let p2 = if j2 < ri {
                j2
            } else {
                j2 + 1
            };
            assert(post.reverse_lookup@[j1] == self.reverse_lookup@[p1]);
            assert(post.reverse_lookup@[j2] == self.reverse_lookup@[p2]);
        }
        assert forall|id: u16| post.has_rev(id) <==> (self.has_rev(id) && id != rid) by {
            if post.has_rev(id) {
                let j = post.rev_index(id);
                let p = if j < ri {
                    j
                } else {
                    j + 1
                };
                assert(self.reverse_lookup@[p].id == id);
                assert(p != ri);
            }
            if self.has_rev(id) && id != rid {
                let j = self.rev_index(id);
                assert(j != ri);
                if j < ri {
                    assert(post.reverse_lookup@[j].id == id);
                } else {
                    assert(post.reverse_lookup@[j - 1].id == id);
                }
            }
        }
        assert forall|id: u16| post.has_rev(id) implies post.rev_at(id) == self.rev_at(id) by {
            let j = self.rev_index(id);
            assert(j != ri);
            if j < ri {
                assert(post.reverse_lookup@[j] == self.reverse_lookup@[j]);
                post.lemma_rev_index_is(id, j);
            } else {
                assert(post.reverse_lookup@[j - 1] == self.reverse_lookup@[j]);
                post.lemma_rev_index_is(id, j - 1);
            }
        }
    }

    /// Well-formedness transfers between states whose reverse indexes are
    /// equal and whose group tables agree row by row on fingerprint and key
    /// set, as long as each row's group stays well formed and non-empty.
    pub proof fn lemma_wf_same_shape(self, post: HotkeyListener)
        requires
            self.wf(),
            post.reverse_lookup@ == self.reverse_lookup@,
            post.actions@.len() == self.actions@.len(),
            forall|i: int|
                0 <= i < self.actions@.len() ==> {
                    let a0 = self.actions@[i];
                    let a1 = #[trigger] post.actions@[i];
                    &&& a1.fingerprint == a0.fingerprint
                    &&& a1.mapping.key_ids() == a0.mapping.key_ids()
                    &&& a1.mapping.wf()
                    &&& a1.mapping.actions@.len() > 0
                },
        ensures
            post.wf(),
    {
        assert(post.groups_unique());
        assert(post.revs_unique());
        assert forall|i: int, k: int|
            #![trigger post.reverse_lookup@[i].fingerprints@[k]]
            (0 <= i < post.reverse_lookup@.len() && 0 <= k
                < post.reverse_lookup@[i].fingerprints@.len()) implies {
            let f = post.reverse_lookup@[i].fingerprints@[k];
            &&& post.has_group(f)
            &&& post.group_at(f).has_key(post.reverse_lookup@[i].id)
        } by {
            let f = post.reverse_lookup@[i].fingerprints@[k];
            let id = post.reverse_lookup@[i].id;
            assert(self.reverse_lookup@[i].fingerprints@[k] == f);
            assert(self.has_group(f) && self.group_at(f).has_key(id));
            let pi = self.group_index(f);
            assert(post.actions@[pi].fingerprint == f);
            post.lemma_group_index_is(f, pi);
            assert(post.group_at(f).key_ids() == self.group_at(f).key_ids());
        }
        assert forall|i: int, k: int|
            #![trigger post.actions@[i].mapping.keys@[k]]
            (0 <= i < post.actions@.len() && 0 <= k < post.actions@[i].mapping.keys@.len()) implies {
            let id = post.actions@[i].mapping.keys@[k].id;
            &&& post.has_rev(id)
            &&& post.rev_at(id).fingerprints@.contains(post.actions@[i].fingerprint)
        } by {
            let id = post.actions@[i].mapping.keys@[k].id;
            assert(post.actions@[i].mapping.key_ids().len() == post.actions@[i].mapping.keys@.len());
            assert(self.actions@[i].mapping.key_ids().len() == self.actions@[i].mapping.keys@.len());
            assert(0 <= k < self.actions@[i].mapping.keys@.len());
            assert(post.actions@[i].mapping.key_ids()[k] == id);
            assert(self.actions@[i].mapping.key_ids()[k] == id);
            assert(self.actions@[i].mapping.keys@[k].id == id);
            assert(self.has_rev(id));
            assert(self.rev_at(id).fingerprints@.contains(self.actions@[i].fingerprint));
            let ri = self.rev_index(id);
            post.lemma_rev_index_is(id, ri);
        }
    }

    /// How a registration that created a new group leaves the engine: the
    /// group table gains one row under the fingerprint of the names, seeded
    /// never-pressed, holding exactly the registered action; every canonical
    /// key's index row gains the fingerprint, and a row is created — and its
    /// name reported in `out` — for every key not indexed before.
    pub open spec fn register_new_group_post(
        self,
        post: HotkeyListener,
        names: Seq<Seq<char>>,
        a: Seq<char>,
        out: Seq<Seq<char>>,
    ) -> bool {
        let ids = spec_canon(names);
        let f = spec_fingerprint(names);
        let n0 = self.reverse_lookup@.len() as int;
        &&& post.actions@.len() == self.actions@.len() + 1
        &&& (forall|i: int| 0 <= i < self.actions@.len() ==> post.actions@[i] == self.actions@[i])
        &&& post.actions@.last().fingerprint == f
        &&& post.actions@.last().mapping.action_views() == seq![a]
        &&& post.actions@.last().mapping.key_ids() == ids
        &&& (forall|k: int|
            0 <= k < post.actions@.last().mapping.keys@.len() ==> (#[trigger] post.actions@.last(
            ).mapping.keys@[k]).last_press is None)
        &&& post.reverse_lookup@.len() == n0 + out.len()
        &&& (forall|j: int|
            0 <= j < n0 ==> {
                let e0 = self.reverse_lookup@[j];
                let e1 = #[trigger] post.reverse_lookup@[j];
                &&& e1.id == e0.id
                &&& e1.name == e0.name
                &&& e1.fingerprints@ == (if ids.contains(e0.id) {
                    e0.fingerprints@.push(f)
                } else {
                    e0.fingerprints@
                })
            })
        &&& (forall|j: int|
            n0 <= j < post.reverse_lookup@.len() ==> {
                let e1 = #[trigger] post.reverse_lookup@[j];
                &&& ids.contains(e1.id)
                &&& !self.has_rev(e1.id)
                &&& e1.fingerprints@ == seq![f]
                &&& parsed_key(e1.name@) == Some(e1.id)
                &&& names.contains(e1.name@)
                &&& out[j - n0] == e1.name@
            })
        &&& (forall|id: u16| ids.contains(id) ==> post.has_rev(id))
    }

    /// Registers an action by name and key sequence. The canonical key list
    /// is fingerprinted and the fingerprint keys the group table.
    ///
    /// A group already registered under the fingerprint gains the action —
    /// unless it already holds it — and nothing else changes. Otherwise a
    /// fresh group is created and every canonical key is indexed under the
    /// fingerprint. The returned list holds the names of the keys that were
    /// not indexed before: the caller must install the hook for each of
    /// them, one hook per physical key, shared by every fingerprint that
    /// references the key.
    pub fn register_action(&mut self, action_name: &String, keys: &[String]) -> (r: Result<
        Vec<String>,
        Error,
    >)
        requires
            old(self).wf(),
        ensures
            final(self).wf(),
            final(self).same_config(*old(self)),
            ({
                let names = keys.deep_view();
                let f = spec_fingerprint(names);
                &&& (r == Result::<Vec<String>, Error>::Err(Error::BadKeyCodeName)
                    <==> !all_names_parse(names))
                &&& (r == Result::<Vec<String>, Error>::Err(Error::ActionAlreadyExists) <==> (
                all_names_parse(names) && old(self).has_group(f) && old(self).group_at(
                    f,
                ).has_action(action_name@)))
                &&& (r is Err ==> final(self).same_state(*old(self)))
                &&& (r is Ok <==> (all_names_parse(names) && !(old(self).has_group(f) && old(
                    self,
                ).group_at(f).has_action(action_name@))))
                &&& (r matches Ok(out) ==> all_names_parse(names) && (if old(self).has_group(f) {
                    let gi = old(self).group_index(f);
                    &&& !old(self).group_at(f).has_action(action_name@)
                    &&& out@.len() == 0
                    &&& final(self).actions@.len() == old(self).actions@.len()
                    &&& (forall|i: int|
                        0 <= i < old(self).actions@.len() && i != gi ==> final(self).actions@[i]
                            == old(self).actions@[i])
                    &&& final(self).actions@[gi].fingerprint == f
                    &&& final(self).actions@[gi].mapping.actions@ == old(self).actions@[gi].mapping.actions@.push(*action_name)
                    &&& final(self).actions@[gi].mapping.keys == old(self).actions@[gi].mapping.keys
                    &&& final(self).reverse_lookup@ == old(self).reverse_lookup@
                } else {
                    old(self).register_new_group_post(
                        *final(self),
                        names,
                        action_name@,
                        out.deep_view(),
                    )
                }))
            }),
    {
        let ghost names = keys.deep_view();
        let (key_codes, key_codes_hash) = match string_slice_to_vec_and_hash(keys) {
            Ok(v) => v,
            Err(e) => {
                return Err(e);
            },
        };
        let ghost ids = key_codes@;
        let ghost f = key_codes_hash;
        match find_group_index(&self.actions, key_codes_hash) {
            Some(gi) => {
                proof {
                    old(self).lemma_group_index_is(f, gi as int);
                }
                let mut entry = self.actions.remove(gi);
                let res = entry.mapping.add_action(action_name);
                let is_ok = res.is_ok();
                self.actions.insert(gi, entry);
                proof {
                    assert(self.actions@.len() == old(self).actions@.len());
                    assert(forall|i: int|
                        0 <= i < self.actions@.len() && i != gi ==> self.actions@[i] == old(
                            self,
                        ).actions@[i]);
                    assert(self.actions@[gi as int].fingerprint == f);
                }
                match res {
                    Ok(_) => {
                        proof {
                            let m1 = self.actions@[gi as int].mapping;
                            let m0 = old(self).actions@[gi as int].mapping;
                            assert(m1.actions@ == m0.actions@.push(*action_name));
                            assert(m1.keys == m0.keys);
                            assert(m1.key_ids() == m0.key_ids());
                            assert forall|i: int, j: int|
                                0 <= i < j < m1.actions@.len() implies m1.action_views()[i]
                                != m1.action_views()[j] by {
                                assert(m1.action_views()[i] == m1.actions@[i]@);
                                assert(m1.action_views()[j] == m1.actions@[j]@);
                                if j == m1.actions@.len() - 1 {
                                    assert(m1.actions@[i] == m0.actions@[i]);
                                    assert(m0.action_views()[i] == m0.actions@[i]@);
                                    if m1.actions@[i]@ == action_name@ {
                                        assert(m0.has_action(action_name@));
                                    }
                                } else {
                                    assert(m1.actions@[i] == m0.actions@[i]);
                                    assert(m1.actions@[j] == m0.actions@[j]);
                                    assert(m0.action_views()[i] == m0.actions@[i]@);
                                    assert(m0.action_views()[j] == m0.actions@[j]@);
                                }
                            }
                            assert(m1.wf());
                            old(self).lemma_wf_same_shape(*self);
                        }
                        Ok(Vec::new())
                    },
                    Err(e) => {
                        proof {
                            assert(self.actions@ =~= old(self).actions@);
                            assert(self.same_state(*old(self)));
                            old(self).lemma_wf_same_shape(*self);
                        }
                        Err(e)
                    },
                }
            },
            None => {
                let mut am = ActionMapping::new(key_codes.as_slice());
                let res = am.add_action(action_name);
                proof {
                    assert(res is Ok);
                }
                let ghost am1 = am;
                self.actions.push(GroupEntry { fingerprint: key_codes_hash, mapping: am });
                let ghost mid = *self;
                let ghost n0 = old(self).reverse_lookup@.len() as int;
                let mut out: Vec<String> = Vec::new();
                let mut t: usize = 0;
                proof {
                    assert(mid.actions@ == old(self).actions@.push(
                        GroupEntry { fingerprint: f, mapping: am1 },
                    ));
                    assert(am1.action_views() =~= seq![action_name@]);
                }
                while t < key_codes.len()
                    invariant
                        t <= ids.len(),
                        key_codes@ == ids,
                        f == key_codes_hash,
                        sorted_unique(ids),
                        old(self).wf(),
                        forall|i: int|
                            0 <= i < old(self).actions@.len() ==> (#[trigger] old(
                                self,
                            ).actions@[i]).fingerprint != f,
                        self.actions@ == mid.actions@,
                        mid.actions@.len() == old(self).actions@.len() + 1,
                        forall|i: int|
                            0 <= i < old(self).actions@.len() ==> mid.actions@[i] == old(
                                self,
                            ).actions@[i],
                        mid.actions@.last() == (GroupEntry { fingerprint: f, mapping: am1 }),
                        self.same_config(*old(self)),
                        n0 == old(self).reverse_lookup@.len() as int,
                        self.reverse_lookup@.len() == n0 + out@.len(),
                        self.revs_unique(),
                        forall|j: int|
                            0 <= j < n0 ==> {
                                let e0 = old(self).reverse_lookup@[j];
                                let e1 = #[trigger] self.reverse_lookup@[j];
                                &&& e1.id == e0.id
                                &&& e1.name == e0.name
                                &&& e1.fingerprints@ == (if ids.take(t as int).contains(e0.id) {
                                    e0.fingerprints@.push(f)
                                } else {
                                    e0.fingerprints@
                                })
                            },
                        forall|j: int|
                            n0 <= j < self.reverse_lookup@.len() ==> {
                                let e1 = #[trigger] self.reverse_lookup@[j];
                                &&& ids.take(t as int).contains(e1.id)
                                &&& !old(self).has_rev(e1.id)
                                &&& e1.fingerprints@ == seq![f]
                                &&& parsed_key(e1.name@) == Some(e1.id)
                                &&& names.contains(e1.name@)
                                &&& out.deep_view()[j - n0] == e1.name@
                            },
                        forall|id: u16| ids.take(t as int).contains(id) ==> self.has_rev(id),
                        names == keys.deep_view(),
                        keys@.len() == names.len(),
                        forall|id: u16| ids.contains(id) ==> names_have_id(names, id),
                    decreases ids.len() - t,
                {
                    let ghost pre_iter = *self;
                    let ghost rev0 = self.reverse_lookup@;
                    let ghost out0 = out.deep_view();
                    let id = key_codes[t];
                    proof {
                        assert(ids[t as int] == id);
                        assert(ids.contains(id));
                        assert(!ids.take(t as int).contains(id)) by {
                            if ids.take(t as int).contains(id) {
                                let k = choose|k: int|
                                    0 <= k < ids.take(t as int).len() && ids.take(t as int)[k]
                                        == id;
                                assert(ids[k] == id);
                            }
                        }
                        assert(ids.take(t + 1 as int) =~= ids.take(t as int).push(id));
                        lemma_take_push_contains(ids, t as int);
                    }
                    match find_rev_index(&self.reverse_lookup, id) {
                        Some(ri) => {
                            proof {
                                assert(ri < n0) by {
                                    if ri >= n0 {
                                        assert(ids.take(t as int).contains(
                                            rev0[ri as int].id,
                                        ));
                                    }
                                }
                            }
                            let mut e = self.reverse_lookup.remove(ri);
                            e.fingerprints.push(key_codes_hash);
                            let ghost e_new = e;
                            self.reverse_lookup.insert(ri, e);
                            proof {
                                assert(self.reverse_lookup@.len() == rev0.len());
                                assert(self.reverse_lookup@[ri as int] == e_new);
                                assert forall|j: int| 0 <= j < rev0.len() && j != ri
                                    implies self.reverse_lookup@[j] == rev0[j] by {
                                    if j < ri {
                                        assert(rev0.remove(ri as int)[j] == rev0[j]);
                                    } else {
                                        assert(rev0.remove(ri as int)[j - 1] == rev0[j]);
                                    }
                                }
                                let e0 = old(self).reverse_lookup@[ri as int];
                                assert(rev0[ri as int].fingerprints@ == e0.fingerprints@);
                                assert(e_new.id == e0.id);
                                assert(e_new.name == e0.name);
                                assert(e_new.fingerprints@ == e0.fingerprints@.push(f));
                                assert forall|x: u16| ids.take(t + 1 as int).contains(x)
                                    implies self.has_rev(x) by {
                                    if x == id {
                                        assert(self.reverse_lookup@[ri as int].id == id);
                                    } else {
                                        assert(ids.take(t as int).contains(x));
                                        assert(pre_iter.has_rev(x));
                                        let j = choose|j: int|
                                            0 <= j < pre_iter.reverse_lookup@.len() && (#[trigger] pre_iter.reverse_lookup@[j]).id == x;
                                        assert(self.reverse_lookup@[j].id == x);
                                    }
                                }
                            }
                        },
                        None => {
                            let name = find_name_for_id(keys, id);
                            out.push(name.clone());
                            let mut fps_new: Vec<u64> = Vec::new();
                            fps_new.push(key_codes_hash);
                            self.reverse_lookup.push(ReverseEntry { id, name, fingerprints: fps_new });
                            proof {
                                assert(!old(self).has_rev(id)) by {
                                    if old(self).has_rev(id) {
                                        let j = old(self).rev_index(id);
                                        assert(rev0[j].id == old(self).reverse_lookup@[j].id);
                                    }
                                }
                                assert(fps_new@ =~= seq![f]);
                                assert(self.reverse_lookup@.len() == rev0.len() + 1);
                                assert(forall|j: int|
                                    0 <= j < rev0.len() ==> self.reverse_lookup@[j] == rev0[j]);
                                assert(out.deep_view() =~= out0.push(name@));
                                assert(self.reverse_lookup@.last().id == id);
                                assert forall|x: u16| ids.take(t + 1 as int).contains(x)
                                    implies self.has_rev(x) by {
                                    if x == id {
                                        assert(self.reverse_lookup@[rev0.len() as int].id == id);
                                    } else {
                                        assert(ids.take(t as int).contains(x));
                                        assert(pre_iter.has_rev(x));
                                        let j = choose|j: int|
                                            0 <= j < pre_iter.reverse_lookup@.len() && (#[trigger] pre_iter.reverse_lookup@[j]).id == x;
                                        assert(self.reverse_lookup@[j].id == x);
                                    }
                                }
                            }
                        },
                    }
                    t = t + 1;
                }
                proof {
                    assert(ids.take(ids.len() as int) =~= ids);
                    let post = *self;
                    let pre = *old(self);
                    assert(pre.register_new_group_post(post, names, action_name@, out.deep_view()));
                    // well-formedness of the grown tables
                    assert(post.groups_unique());
                    assert forall|i: int| 0 <= i < post.actions@.len() implies (#[trigger] post.actions@[i]).mapping.wf()
                        && post.actions@[i].mapping.actions@.len() > 0 && post.actions@[i].fingerprint
                        == spec_hash(post.actions@[i].mapping.key_ids()) by {
                        if i < pre.actions@.len() {
                            assert(post.actions@[i] == pre.actions@[i]);
                        } else {
                            assert(post.actions@[i] == (GroupEntry { fingerprint: f, mapping: am1 }));
                            assert(am1.action_views().len() == 1);
                            assert(am1.key_ids() == ids);
                            assert(f == spec_hash(ids));
                        }
                    }
                    assert forall|i: int| 0 <= i < post.reverse_lookup@.len() implies {
                        let e = #[trigger] post.reverse_lookup@[i];
                        &&& fps_unique(e.fingerprints@)
                        &&& e.fingerprints@.len() > 0
                        &&& parsed_key(e.name@) == Some(e.id)
                    } by {
                        if i < n0 {
                            let e0 = pre.reverse_lookup@[i];
                            if ids.contains(e0.id) {
                                assert(!e0.fingerprints@.contains(f)) by {
                                    if e0.fingerprints@.contains(f) {
                                        let k = choose|k: int|
                                            0 <= k < e0.fingerprints@.len() && e0.fingerprints@[k]
                                                == f;
                                        assert(pre.has_group(f));
                                    }
                                }
                                assert forall|x: int, y: int|
                                    0 <= x < y < e0.fingerprints@.push(f).len() implies e0.fingerprints@.push(f)[x]
                                    != e0.fingerprints@.push(f)[y] by {
                                    if y < e0.fingerprints@.len() {
                                    } else {
                                        assert(e0.fingerprints@.push(f)[x] == e0.fingerprints@[x]);
                                        assert(e0.fingerprints@.contains(e0.fingerprints@[x]));
                                    }
                                }
                            }
                        }
                    }
                    assert(post.rev_coherent()) by {
                        assert forall|i: int, k: int|
                            #![trigger post.reverse_lookup@[i].fingerprints@[k]]
                            (0 <= i < post.reverse_lookup@.len() && 0 <= k
                                < post.reverse_lookup@[i].fingerprints@.len()) implies {
                            let fp = post.reverse_lookup@[i].fingerprints@[k];
                            &&& post.has_group(fp)
                            &&& post.group_at(fp).has_key(post.reverse_lookup@[i].id)
                        } by {
                            let fp = post.reverse_lookup@[i].fingerprints@[k];
                            let kid = post.reverse_lookup@[i].id;
                            if i < n0 {
                                let e0 = pre.reverse_lookup@[i];
                                if k < e0.fingerprints@.len() {
                                    assert(fp == e0.fingerprints@[k]);
                                    assert(pre.has_group(fp) && pre.group_at(fp).has_key(e0.id));
                                    let pi = pre.group_index(fp);
                                    assert(post.actions@[pi] == pre.actions@[pi]);
                                    post.lemma_group_index_is(fp, pi);
                                } else {
                                    assert(ids.contains(e0.id));
                                    assert(fp == f);
                                    assert(post.actions@.last().fingerprint == f);
                                    post.lemma_group_index_is(f, post.actions@.len() - 1);
                                    assert(post.group_at(f).key_ids() == ids);
                                }
                            } else {
                                assert(fp == f);
                                assert(ids.contains(kid));
                                post.lemma_group_index_is(f, post.actions@.len() - 1);
                                assert(post.group_at(f).key_ids() == ids);
                            }
                        }
                    }
                    assert(post.groups_indexed()) by {
                        assert forall|i: int, k: int|
                            #![trigger post.actions@[i].mapping.keys@[k]]
                            (0 <= i < post.actions@.len() && 0 <= k
                                < post.actions@[i].mapping.keys@.len()) implies {
                            let kid = post.actions@[i].mapping.keys@[k].id;
                            &&& post.has_rev(kid)
                            &&& post.rev_at(kid).fingerprints@.contains(post.actions@[i].fingerprint)
                        } by {
                            let kid = post.actions@[i].mapping.keys@[k].id;
                            if i < pre.actions@.len() {
                                assert(post.actions@[i] == pre.actions@[i]);
                                assert(pre.has_rev(kid) && pre.rev_at(kid).fingerprints@.contains(
                                    pre.actions@[i].fingerprint,
                                ));
                                let ri = pre.rev_index(kid);
                                assert(post.reverse_lookup@[ri].id == kid);
                                post.lemma_rev_index_is(kid, ri);
                                let g = pre.actions@[i].fingerprint;
                                let e0 = pre.reverse_lookup@[ri];
                                let kk = choose|kk: int|
                                    0 <= kk < e0.fingerprints@.len() && e0.fingerprints@[kk] == g;
                                if ids.contains(e0.id) {
                                    assert(post.reverse_lookup@[ri].fingerprints@[kk] == g);
                                } else {
                                    assert(post.reverse_lookup@[ri].fingerprints@[kk] == g);
                                }
                            } else {
                                assert(post.actions@[i].mapping.key_ids()[k] == kid);
                                assert(ids.contains(kid));
                                assert(post.has_rev(kid));
                                let ri = post.rev_index(kid);
                                if ri < n0 {
                                    let e0 = pre.reverse_lookup@[ri];
                                    assert(e0.id == kid);
                                    assert(ids.contains(e0.id));
                                    let fps1 = post.reverse_lookup@[ri].fingerprints@;
                                    assert(fps1 == e0.fingerprints@.push(f));
                                    assert(fps1[fps1.len() - 1] == f);
                                } else {
                                    assert(post.reverse_lookup@[ri].fingerprints@ == seq![f]);
                                    assert(post.reverse_lookup@[ri].fingerprints@[0] == f);
                                }
                            }
                        }
                    }
                }
                Ok(out)
            },
        }
    }

    /// How an unregistration that deleted its group leaves the reverse
    /// index: the fingerprint of the names disappears from the rows of the
    /// deleted group's keys; a row left empty is dropped, and its name — the
    /// name of a key no remaining group references — is reported in `out`,
    /// each such name exactly once, so that the caller uninstalls each hook
    /// exactly once. Rows of other keys are untouched.
    pub open spec fn unregister_rev_post(
        self,
        post: HotkeyListener,
        g_keys: Seq<u16>,
        f: u64,
        out: Seq<Seq<char>>,
    ) -> bool {
        &&& (forall|id: u16|
            post.has_rev(id) <==> (self.has_rev(id) && !(g_keys.contains(id) && self.rev_at(
                id,
            ).fingerprints@ == seq![f])))
        &&& (forall|id: u16|
            post.has_rev(id) && g_keys.contains(id) ==> {
                let e0 = self.rev_at(id);
                let e1 = post.rev_at(id);
                &&& e1.id == id
                &&& e1.name == e0.name
                &&& e1.fingerprints@.len() == e0.fingerprints@.len() - 1
                &&& (forall|g: u64|
                    e1.fingerprints@.contains(g) <==> (e0.fingerprints@.contains(g) && g != f))
            })
        &&& (forall|id: u16|
            post.has_rev(id) && !g_keys.contains(id) ==> post.rev_at(id) == self.rev_at(id))
        &&& (forall|x: Seq<char>|
            out.contains(x) <==> exists|id: u16|
                #![trigger g_keys.contains(id)]
                g_keys.contains(id) && self.has_rev(id) && self.rev_at(id).fingerprints@ == seq![f]
                    && self.rev_at(id).name@ == x)
        &&& (forall|k1: int, k2: int| 0 <= k1 < k2 < out.len() ==> out[k1] != out[k2])
    }

    /// Withdraws a fingerprint from the index rows of the given keys; a row
    /// left without fingerprints is dropped and its name returned, exactly
    /// once per dropped row.
    #[verifier::rlimit(100)]
    fn withdraw_fingerprint(&mut self, ks: &Vec<KeyState>, f: u64) -> (out: Vec<String>)
        requires
            old(self).revs_unique(),
            sorted_unique(Seq::new(ks@.len(), |i: int| ks@[i].id)),
            forall|k: int|
                0 <= k < ks@.len() ==> old(self).has_rev((#[trigger] ks@[k]).id) && old(
                    self,
                ).rev_at(ks@[k].id).fingerprints@.contains(f),
            forall|j: int|
                0 <= j < old(self).reverse_lookup@.len() ==> {
                    let e = #[trigger] old(self).reverse_lookup@[j];
                    &&& fps_unique(e.fingerprints@)
                    &&& e.fingerprints@.len() > 0
                    &&& parsed_key(e.name@) == Some(e.id)
                },
        ensures
            final(self).actions == old(self).actions,
            final(self).same_config(*old(self)),
            final(self).revs_unique(),
            old(self).unregister_rev_post(
                *final(self),
                Seq::new(ks@.len(), |i: int| ks@[i].id),
                f,
                out.deep_view(),
            ),
            forall|id: u16|
                final(self).has_rev(id) && Seq::new(ks@.len(), |i: int| ks@[i].id).contains(id)
                    ==> fps_unique(final(self).rev_at(id).fingerprints@) && final(self).rev_at(
                    id,
                ).fingerprints@.len() > 0,
    {
        let ghost pre = *old(self);
        let ghost g_keys = Seq::new(ks@.len(), |i: int| ks@[i].id);
        proof {
            assert(g_keys.take(0) =~= Seq::<u16>::empty());
        }
                    let mut out: Vec<String> = Vec::new();
                    let mut t: usize = 0;
                    while t < ks.len()
                        invariant
                            t <= g_keys.len(),
                            pre == *old(self),
                            g_keys == Seq::new(ks@.len(), |i: int| ks@[i].id),
                            forall|k: int|
                                0 <= k < ks@.len() ==> pre.has_rev((#[trigger] ks@[k]).id)
                                    && pre.rev_at(ks@[k].id).fingerprints@.contains(f),
                            forall|j: int|
                                0 <= j < pre.reverse_lookup@.len() ==> {
                                    let e = #[trigger] pre.reverse_lookup@[j];
                                    &&& fps_unique(e.fingerprints@)
                                    &&& e.fingerprints@.len() > 0
                                    &&& parsed_key(e.name@) == Some(e.id)
                                },
                            sorted_unique(g_keys),
                            self.actions == pre.actions,
                            self.same_config(pre),
                            self.revs_unique(),
                            forall|id: u16|
                                self.has_rev(id) <==> (pre.has_rev(id) && !(
                                g_keys.take(t as int).contains(id) && pre.rev_at(
                                    id,
                                ).fingerprints@ == seq![f])),
                            forall|id: u16|
                                self.has_rev(id) && g_keys.take(t as int).contains(id) ==> {
                                    let e0 = pre.rev_at(id);
                                    let e1 = self.rev_at(id);
                                    &&& e1.id == id
                                    &&& e1.name == e0.name
                                    &&& e1.fingerprints@.len() == e0.fingerprints@.len() - 1
                                    &&& e1.fingerprints@.len() > 0
                                    &&& fps_unique(e1.fingerprints@)
                                    &&& (forall|g: u64|
                                        e1.fingerprints@.contains(g) <==> (
                                        e0.fingerprints@.contains(g) && g != f))
                                },
                            forall|id: u16|
                                self.has_rev(id) && !g_keys.take(t as int).contains(id)
                                    ==> self.rev_at(id) == pre.rev_at(id),
                            forall|x: Seq<char>|
                                out.deep_view().contains(x) <==> exists|id: u16|
                                    #![trigger g_keys.take(t as int).contains(id)]
                                    g_keys.take(t as int).contains(id) && pre.has_rev(id)
                                        && pre.rev_at(id).fingerprints@ == seq![f] && pre.rev_at(
                                        id,
                                    ).name@ == x,
                            forall|k1: int, k2: int|
                                0 <= k1 < k2 < out.deep_view().len() ==> out.deep_view()[k1]
                                    != out.deep_view()[k2],
                            forall|k1: int|
                                0 <= k1 < out.deep_view().len() ==> exists|id: u16|
                                    g_keys.take(t as int).contains(id) && #[trigger] parsed_key(
                                        out.deep_view()[k1],
                                    ) == Some(id),
                        decreases g_keys.len() - t,
                    {
                        let ghost pre_iter = *self;
                        let id = ks[t].id;
                        proof {
                            assert(g_keys[t as int] == id);
                            assert(g_keys.contains(id));
                            assert(!g_keys.take(t as int).contains(id)) by {
                                if g_keys.take(t as int).contains(id) {
                                    let k = choose|k: int|
                                        0 <= k < g_keys.take(t as int).len() && g_keys.take(
                                            t as int,
                                        )[k] == id;
                                    assert(g_keys[k] == id);
                                }
                            }
                            lemma_take_push_contains(g_keys, t as int);
                            assert(ks@[t as int].id == id);
                            assert(pre.has_rev(id) && pre.rev_at(id).fingerprints@.contains(f));
                            assert(pre_iter.has_rev(id));
                        }
                        let ghost out_pre = out.deep_view();
                        match find_rev_index(&self.reverse_lookup, id) {
                            Some(ri) => {
                                proof {
                                    pre_iter.lemma_rev_index_is(id, ri as int);
                                    assert(pre_iter.rev_at(id) == pre.rev_at(id));
                                }
                                let mut e = self.reverse_lookup.remove(ri);
                                let ghost e0 = e;
                                let fi = match find_fp_index(&e.fingerprints, f) {
                                    Some(fi) => fi,
                                    None => {
                                        proof {
                                            assert(e0.fingerprints@.contains(f));
                                            assert(false);
                                        }
                                        vstd::pervasive::unreached()
                                    },
                                };
                                e.fingerprints.remove(fi);
                                let ghost e1 = e;
                                proof {
                                    assert(e1.fingerprints@ == e0.fingerprints@.remove(fi as int));
                                    assert(fps_unique(e0.fingerprints@));
                                    assert forall|g: u64| e1.fingerprints@.contains(g) <==> (
                                    e0.fingerprints@.contains(g) && g != f) by {
                                        if e1.fingerprints@.contains(g) {
                                            let u = e1.fingerprints@;
                                            let k = choose|k: int|
                                                0 <= k < u.len() && #[trigger] u[k] == g;
                                            if k < fi {
                                                assert(e0.fingerprints@[k] == g);
                                            } else {
                                                assert(e0.fingerprints@[k + 1] == g);
                                            }
                                            assert(g != f);
                                        }
                                        if e0.fingerprints@.contains(g) && g != f {
                                            let u = e0.fingerprints@;
                                            let k = choose|k: int|
                                                0 <= k < u.len() && #[trigger] u[k] == g;
                                            if k < fi {
                                                assert(e1.fingerprints@[k] == g);
                                            } else {
                                                assert(k != fi);
                                                assert(e1.fingerprints@[k - 1] == g);
                                            }
                                        }
                                    }
                                    assert forall|x: int, y: int|
                                        0 <= x < y < e1.fingerprints@.len() implies e1.fingerprints@[x]
                                        != e1.fingerprints@[y] by {
                                        let xx = if x < fi {
                                            x
                                        } else {
                                            x + 1
                                        };
                                        let yy = if y < fi {
                                            y
                                        } else {
                                            y + 1
                                        };
                                        assert(e1.fingerprints@[x] == e0.fingerprints@[xx]);
                                        assert(e1.fingerprints@[y] == e0.fingerprints@[yy]);
                                    }
                                }
                                if e.fingerprints.len() == 0 {
                                    out.push(e.name.clone());
                                    proof {
                                        assert(e0.fingerprints@ =~= seq![f]) by {
                                            assert(e0.fingerprints@.len() == 1);
                                            assert(e0.fingerprints@[fi as int] == f);
                                        }
                                        let ghost mid = HotkeyListener {
                                            reverse_lookup: self.reverse_lookup,
                                            ..pre_iter
                                        };
                                        assert(mid.reverse_lookup@ == pre_iter.reverse_lookup@.remove(ri as int));
                                        pre_iter.lemma_rev_drop(mid, ri as int);
                                        assert(forall|x: u16|
                                            mid.has_rev(x) == self.has_rev(x) && (mid.has_rev(x)
                                                ==> mid.rev_at(x) == self.rev_at(x)));
                                        assert(out.deep_view() =~= out_pre.push(e0.name@));
                                        assert(parsed_key(e0.name@) == Some(id));
                                        assert forall|k1: int|
                                            0 <= k1 < out.deep_view().len() implies exists|x: u16|
                                            g_keys.take(t + 1 as int).contains(x)
                                                && #[trigger] parsed_key(out.deep_view()[k1])
                                                == Some(x) by {
                                            if k1 < out_pre.len() {
                                                assert(out.deep_view()[k1] == out_pre[k1]);
                                                let x = choose|x: u16|
                                                    g_keys.take(t as int).contains(x)
                                                        && #[trigger] parsed_key(out_pre[k1])
                                                        == Some(x);
                                                assert(g_keys.take(t + 1 as int).contains(x));
                                            } else {
                                                assert(out.deep_view()[k1] == e0.name@);
                                                assert(g_keys.take(t + 1 as int).contains(id));
                                            }
                                        }
                                        assert forall|k1: int, k2: int|
                                            0 <= k1 < k2 < out.deep_view().len() implies out.deep_view()[k1]
                                            != out.deep_view()[k2] by {
                                            if k2 == out_pre.len() {
                                                let x = choose|x: u16|
                                                    g_keys.take(t as int).contains(x)
                                                        && #[trigger] parsed_key(out_pre[k1])
                                                        == Some(x);
                                                assert(x != id);
                                                assert(parsed_key(out.deep_view()[k1]) == Some(x));
                                                assert(parsed_key(out.deep_view()[k2]) == Some(id));
                                            }
                                        }
                                        assert forall|x: Seq<char>|
                                            out.deep_view().contains(x) <==> exists|id2: u16|
                                                #![trigger g_keys.take(t + 1 as int).contains(id2)]
                                                g_keys.take(t + 1 as int).contains(id2)
                                                    && pre.has_rev(id2) && pre.rev_at(
                                                    id2,
                                                ).fingerprints@ == seq![f] && pre.rev_at(id2).name@
                                                    == x by {
                                            if out.deep_view().contains(x) {
                                                let kx = choose|kx: int|
                                                    0 <= kx < out.deep_view().len()
                                                        && #[trigger] out.deep_view()[kx] == x;
                                                if kx < out_pre.len() {
                                                    assert(out_pre[kx] == x);
                                                    assert(out_pre.contains(x));
                                                } else {
                                                    assert(x == e0.name@);
                                                    assert(g_keys.take(t + 1 as int).contains(id));
                                                    assert(pre.rev_at(id).fingerprints@ == seq![f]);
                                                }
                                            }
                                            if exists|id2: u16|
                                                #![trigger g_keys.take(t + 1 as int).contains(id2)]
                                                g_keys.take(t + 1 as int).contains(id2)
                                                    && pre.has_rev(id2) && pre.rev_at(
                                                    id2,
                                                ).fingerprints@ == seq![f] && pre.rev_at(id2).name@
                                                    == x {
                                                let id2 = choose|id2: u16|
                                                    #![trigger g_keys.take(t + 1 as int).contains(id2)]
                                                    g_keys.take(t + 1 as int).contains(id2)
                                                        && pre.has_rev(id2) && pre.rev_at(
                                                        id2,
                                                    ).fingerprints@ == seq![f] && pre.rev_at(
                                                        id2,
                                                    ).name@ == x;
                                                if id2 == id {
                                                    assert(out.deep_view()[out_pre.len() as int]
                                                        == x);
                                                    assert(out.deep_view().contains(x));
                                                } else {
                                                    assert(g_keys.take(t as int).contains(id2));
                                                    assert(out_pre.contains(x));
                                                    let kx = choose|kx: int|
                                                        0 <= kx < out_pre.len()
                                                            && #[trigger] out_pre[kx] == x;
                                                    assert(out.deep_view()[kx] == x);
                                                    assert(out.deep_view().contains(x));
                                                }
                                            }
                                        }
                                    }
                                } else {
                                    self.reverse_lookup.insert(ri, e);
                                    proof {
                                        assert(self.reverse_lookup@ =~= pre_iter.reverse_lookup@.update(ri as int, e1));
                                        pre_iter.lemma_rev_update(*self, ri as int, e1);
                                        assert(self.rev_at(id) == e1);
                                        assert(e0.fingerprints@ != seq![f]) by {
                                            assert(e0.fingerprints@.len() >= 2);
                                        }
                                        assert forall|x: Seq<char>|
                                            out.deep_view().contains(x) <==> exists|id2: u16|
                                                #![trigger g_keys.take(t + 1 as int).contains(id2)]
                                                g_keys.take(t + 1 as int).contains(id2)
                                                    && pre.has_rev(id2) && pre.rev_at(
                                                    id2,
                                                ).fingerprints@ == seq![f] && pre.rev_at(id2).name@
                                                    == x by {
                                            if exists|id2: u16|
                                                #![trigger g_keys.take(t + 1 as int).contains(id2)]
                                                g_keys.take(t + 1 as int).contains(id2)
                                                    && pre.has_rev(id2) && pre.rev_at(
                                                    id2,
                                                ).fingerprints@ == seq![f] && pre.rev_at(id2).name@
                                                    == x {
                                                let id2 = choose|id2: u16|
                                                    #![trigger g_keys.take(t + 1 as int).contains(id2)]
                                                    g_keys.take(t + 1 as int).contains(id2)
                                                        && pre.has_rev(id2) && pre.rev_at(
                                                        id2,
                                                    ).fingerprints@ == seq![f] && pre.rev_at(
                                                        id2,
                                                    ).name@ == x;
                                                assert(id2 != id);
                                                assert(g_keys.take(t as int).contains(id2));
                                            }
                                        }
                                    }
                                }
                            },
                            None => {
                                proof {
                                    assert(pre_iter.rev_at(id).id == id);
                                    assert(false);
                                }
                                vstd::pervasive::unreached()
                            },
                        }
                        t = t + 1;
                    }
        proof {
            assert(g_keys.take(g_keys.len() as int) =~= g_keys);
        }
        out
    }

    /// Removes an action from the group of a key sequence without touching
    /// other actions' bindings. If the group's last action is removed, the
    /// group is deleted, its fingerprint is withdrawn from the reverse
    /// index, and the names of the keys no remaining group references are
    /// returned: the caller must uninstall the hook of each, exactly once.
    #[verifier::rlimit(100)]
    pub fn unregister_action(&mut self, action_name: &String, keys: &[String]) -> (r: Result<
        Vec<String>,
        Error,
    >)
        requires
            old(self).wf(),
        ensures
            final(self).wf(),
            final(self).same_config(*old(self)),
            ({
                let names = keys.deep_view();
                let f = spec_fingerprint(names);
                &&& (r == Result::<Vec<String>, Error>::Err(Error::BadKeyCodeName)
                    <==> !all_names_parse(names))
                &&& (r == Result::<Vec<String>, Error>::Err(
                    Error::ActionDoesNotExist(MapType::Actions),
                ) <==> (all_names_parse(names) && !old(self).has_group(f)))
                &&& (r == Result::<Vec<String>, Error>::Err(
                    Error::ActionDoesNotExist(MapType::ActionMapping),
                ) <==> (all_names_parse(names) && old(self).has_group(f) && !old(self).group_at(
                    f,
                ).has_action(action_name@)))
                &&& (r is Err ==> final(self).same_state(*old(self)))
                &&& (r is Ok <==> all_names_parse(names) && old(self).has_group(f) && old(
                    self,
                ).group_at(f).has_action(action_name@))
                &&& (r matches Ok(out) ==> {
                    let gi = old(self).group_index(f);
                    let m0 = old(self).group_at(f);
                    if m0.actions@.len() > 1 {
                        &&& out@.len() == 0
                        &&& final(self).reverse_lookup@ == old(self).reverse_lookup@
                        &&& final(self).actions@.len() == old(self).actions@.len()
                        &&& (forall|i: int|
                            0 <= i < old(self).actions@.len() && i != gi
                                ==> final(self).actions@[i] == old(self).actions@[i])
                        &&& final(self).actions@[gi].fingerprint == f
                        &&& final(self).actions@[gi].mapping.keys == m0.keys
                        &&& (exists|k: int|
                            0 <= k < m0.actions@.len() && m0.action_views()[k] == action_name@
                                && final(self).actions@[gi].mapping.actions.deep_view()
                                == m0.action_views().remove(k))
                    } else {
                        &&& final(self).actions@ == old(self).actions@.remove(gi)
                        &&& old(self).unregister_rev_post(
                            *final(self),
                            m0.key_ids(),
                            f,
                            out.deep_view(),
                        )
                    }
                })
            }),
    {
        let ghost names = keys.deep_view();
        let (key_codes, key_codes_hash) = match string_slice_to_vec_and_hash(keys) {
            Ok(v) => v,
            Err(e) => {
                return Err(e);
            },
        };
        let ghost f = key_codes_hash;
        let gi = match find_group_index(&self.actions, key_codes_hash) {
            Some(gi) => gi,
            None => {
                return Err(Error::ActionDoesNotExist(MapType::Actions));
            },
        };
        proof {
            old(self).lemma_group_index_is(f, gi as int);
        }
        let mut entry = self.actions.remove(gi);
        let res = entry.mapping.remove_action(action_name);
        match res {
            Err(e) => {
                self.actions.insert(gi, entry);
                proof {
                    assert(self.actions@ =~= old(self).actions@);
                    old(self).lemma_wf_same_shape(*self);
                }
                Err(e)
            },
            Ok(_) => {
                if entry.mapping.actions.len() > 0 {
                    self.actions.insert(gi, entry);
                    proof {
                        assert(self.actions@.len() == old(self).actions@.len());
                        assert(forall|i: int|
                            0 <= i < self.actions@.len() && i != gi ==> self.actions@[i] == old(
                                self,
                            ).actions@[i]);
                        let m0 = old(self).actions@[gi as int].mapping;
                        let m1 = self.actions@[gi as int].mapping;
                        assert(m1.key_ids() == m0.key_ids());
                        assert(exists|k: int|
                            0 <= k < m0.actions@.len() && m0.action_views()[k] == action_name@
                                && m1.actions.deep_view() == m0.action_views().remove(k));
                        let k = choose|k: int|
                            0 <= k < m0.actions@.len() && m0.action_views()[k] == action_name@
                                && m1.actions.deep_view() == m0.action_views().remove(k);
                        assert(m1.actions.deep_view() == m0.action_views().remove(k));
                        assert forall|x: int, y: int| 0 <= x < y < m1.actions@.len() implies m1.action_views()[x]
                            != m1.action_views()[y] by {
                            let xx = if x < k {
                                x
                            } else {
                                x + 1
                            };
                            let yy = if y < k {
                                y
                            } else {
                                y + 1
                            };
                            assert(m1.action_views()[x] == m0.action_views()[xx]);
                            assert(m1.action_views()[y] == m0.action_views()[yy]);
                        }
                        assert(m1.wf());
                        old(self).lemma_wf_same_shape(*self);
                    }
                    Ok(Vec::new())
                } else {
                    let ghost pre = *old(self);
                    let ghost g_keys = old(self).group_at(f).key_ids();
                    proof {
                        let m0 = old(self).actions@[gi as int].mapping;
                        assert(entry.mapping.actions.deep_view().len()
                            == entry.mapping.actions@.len());
                        assert(m0.action_views().len() == m0.actions@.len());
                        assert(entry.mapping.actions@.len() == 0);
                        assert(m0.actions@.len() == 1);
                        assert(entry.mapping.key_ids() == g_keys);
                        assert(self.actions@ == pre.actions@.remove(gi as int));
                        assert(self.reverse_lookup@ == pre.reverse_lookup@);
                        assert(g_keys.take(0) =~= Seq::<u16>::empty());
                        assert(self.revs_unique());
                        assert forall|id: u16| self.has_rev(id) == pre.has_rev(id) by {
                            if self.has_rev(id) {
                                let j = self.rev_index(id);
                                assert(pre.reverse_lookup@[j].id == id);
                            }
                            if pre.has_rev(id) {
                                let j = pre.rev_index(id);
                                assert(self.reverse_lookup@[j].id == id);
                            }
                        }
                        assert forall|id: u16| pre.has_rev(id) implies self.rev_at(id) == pre.rev_at(
                            id,
                        ) by {
                            let j = pre.rev_index(id);
                            self.lemma_rev_index_is(id, j);
                        }
                        assert(g_keys == Seq::new(
                            entry.mapping.keys@.len(),
                            |i: int| entry.mapping.keys@[i].id,
                        ));
                        assert forall|k: int| 0 <= k < entry.mapping.keys@.len() implies self.has_rev(
                            (#[trigger] entry.mapping.keys@[k]).id,
                        ) && self.rev_at(entry.mapping.keys@[k].id).fingerprints@.contains(f) by {
                            assert(pre.actions@[gi as int].mapping.keys@[k].id
                                == entry.mapping.keys@[k].id);
                        }
                        assert(forall|j: int|
                            0 <= j < self.reverse_lookup@.len() ==> {
                                let e = #[trigger] self.reverse_lookup@[j];
                                &&& fps_unique(e.fingerprints@)
                                &&& e.fingerprints@.len() > 0
                                &&& parsed_key(e.name@) == Some(e.id)
                            });
                    }
                    let ghost mid = *self;
                    let out = self.withdraw_fingerprint(&entry.mapping.keys, key_codes_hash);
                    proof {
                        let post = *self;
                        assert(mid.unregister_rev_post(post, g_keys, f, out.deep_view()));
                        assert(forall|id: u16| mid.has_rev(id) == pre.has_rev(id));
                        assert(forall|id: u16|
                            pre.has_rev(id) ==> mid.rev_at(id) == pre.rev_at(id));
                        assert(pre.unregister_rev_post(post, g_keys, f, out.deep_view()));
                        // well-formedness of the pruned tables
                        assert(post.groups_unique());
                        assert forall|j: int| 0 <= j < post.reverse_lookup@.len() implies {
                            let e = #[trigger] post.reverse_lookup@[j];
                            &&& fps_unique(e.fingerprints@)
                            &&& e.fingerprints@.len() > 0
                            &&& parsed_key(e.name@) == Some(e.id)
                        } by {
                            let e = post.reverse_lookup@[j];
                            post.lemma_rev_index_is(e.id, j);
                            assert(post.has_rev(e.id));
                            assert(pre.has_rev(e.id));
                            let e0 = pre.rev_at(e.id);
                            assert(e0 == pre.reverse_lookup@[pre.rev_index(e.id)]);
                            if g_keys.contains(e.id) {
                                assert(e.name == e0.name);
                            } else {
                                assert(e == e0);
                            }
                        }
                        assert(post.rev_coherent()) by {
                            assert forall|i: int, k: int|
                                #![trigger post.reverse_lookup@[i].fingerprints@[k]]
                                (0 <= i < post.reverse_lookup@.len() && 0 <= k
                                    < post.reverse_lookup@[i].fingerprints@.len()) implies {
                                let fp = post.reverse_lookup@[i].fingerprints@[k];
                                &&& post.has_group(fp)
                                &&& post.group_at(fp).has_key(post.reverse_lookup@[i].id)
                            } by {
                                let e = post.reverse_lookup@[i];
                                let fp = e.fingerprints@[k];
                                post.lemma_rev_index_is(e.id, i);
                                assert(pre.has_rev(e.id));
                                let e0 = pre.rev_at(e.id);
                                assert(e.fingerprints@.contains(fp));
                                assert(e0.fingerprints@.contains(fp) && fp != f) by {
                                    if g_keys.contains(e.id) {
                                    } else {
                                        assert(e == e0);
                                        let ei = pre.rev_index(e.id);
                                        let kk = choose|kk: int|
                                            0 <= kk < e0.fingerprints@.len()
                                                && #[trigger] e0.fingerprints@[kk] == fp;
                                        assert(pre.reverse_lookup@[ei].fingerprints@[kk] == fp);
                                        assert(pre.has_group(fp) && pre.group_at(fp).has_key(
                                            e.id,
                                        ));
                                        if fp == f {
                                            assert(pre.group_at(f).has_key(e.id));
                                            assert(g_keys.contains(e.id));
                                        }
                                    }
                                }
                                let ei0 = pre.rev_index(e.id);
                                let kk = choose|kk: int|
                                    0 <= kk < e0.fingerprints@.len()
                                        && #[trigger] e0.fingerprints@[kk] == fp;
                                assert(pre.reverse_lookup@[ei0].fingerprints@[kk] == fp);
                                assert(pre.has_group(fp) && pre.group_at(fp).has_key(e.id));
                                let pj = pre.group_index(fp);
                                assert(pj != gi);
                                let pj2 = if pj < gi {
                                    pj
                                } else {
                                    pj - 1
                                };
                                assert(post.actions@[pj2] == pre.actions@[pj]);
                                post.lemma_group_index_is(fp, pj2);
                            }
                        }
                        assert(post.groups_indexed()) by {
                            assert forall|i: int, k: int|
                                #![trigger post.actions@[i].mapping.keys@[k]]
                                (0 <= i < post.actions@.len() && 0 <= k
                                    < post.actions@[i].mapping.keys@.len()) implies {
                                let kid = post.actions@[i].mapping.keys@[k].id;
                                &&& post.has_rev(kid)
                                &&& post.rev_at(kid).fingerprints@.contains(
                                    post.actions@[i].fingerprint,
                                )
                            } by {
                                let pi = if i < gi {
                                    i
                                } else {
                                    i + 1
                                };
                                assert(post.actions@[i] == pre.actions@[pi]);
                                let kid = post.actions@[i].mapping.keys@[k].id;
                                let fp = post.actions@[i].fingerprint;
                                assert(pre.actions@[pi].mapping.keys@[k].id == kid);
                                assert(pre.has_rev(kid) && pre.rev_at(kid).fingerprints@.contains(
                                    fp,
                                ));
                                assert(fp != f) by {
                                    if pi != gi {
                                        assert(pre.actions@[gi as int].fingerprint == f);
                                    }
                                }
                                assert(post.has_rev(kid)) by {
                                    if g_keys.contains(kid) && pre.rev_at(kid).fingerprints@
                                        == seq![f] {
                                        assert(pre.rev_at(kid).fingerprints@[0] == f);
                                        assert(pre.rev_at(kid).fingerprints@.contains(fp));
                                    }
                                }
                                if g_keys.contains(kid) {
                                    assert(post.rev_at(kid).fingerprints@.contains(fp));
                                } else {
                                    assert(post.rev_at(kid) == pre.rev_at(kid));
                                }
                            }
                        }
                    }
                    Ok(out)
                }
            },
        }
    }

    /// What one group emits when `key` arrives at `now`: its action names,
    /// in bound order, if after recording the press every constituent key
    /// was seen within the window; else nothing.
    pub open spec fn spec_emit_one(self, g: u64, key: u16, now: u64) -> Seq<Seq<char>> {
        if self.has_group(g) && spec_pressed_after(
            self.group_at(g),
            key,
            now,
            self.min_elapsed_time,
        ) {
            self.group_at(g).action_views()
        } else {
            Seq::empty()
        }
    }

    /// What the groups of a fingerprint list emit, in list order, when `key`
    /// arrives at `now`.
    pub open spec fn spec_emits(self, fps: Seq<u64>, key: u16, now: u64) -> Seq<Seq<char>>
        decreases fps.len(),
    {
        if fps.len() == 0 {
            Seq::empty()
        } else {
            self.spec_emit_one(fps[0], key, now) + self.spec_emits(fps.drop_first(), key, now)
        }
    }

    /// Emissions of a prefix grow one group at a time.
    pub proof fn lemma_spec_emits_take(self, s: Seq<u64>, key: u16, now: u64, t: int)
        requires
            0 <= t < s.len(),
        ensures
            self.spec_emits(s.take(t + 1), key, now) == self.spec_emits(s.take(t), key, now)
                + self.spec_emit_one(s[t], key, now),
        decreases t,
    {
        if t == 0 {
            assert(s.take(1)[0] == s[0]);
            assert(s.take(1).drop_first() =~= Seq::<u64>::empty());
            assert(s.take(0) =~= Seq::<u64>::empty());
            assert(self.spec_emits(s.take(1), key, now) =~= self.spec_emits(s.take(0), key, now)
                + self.spec_emit_one(s[0], key, now));
        } else {
            let sdf = s.drop_first();
            assert(s.take(t + 1)[0] == s[0]);
            assert(s.take(t + 1).drop_first() =~= sdf.take(t));
            assert(s.take(t)[0] == s[0]);
            assert(s.take(t).drop_first() =~= sdf.take(t - 1));
            self.lemma_spec_emits_take(sdf, key, now, t - 1);
            assert(sdf[t - 1] == s[t]);
            assert((self.spec_emit_one(s[0], key, now) + (self.spec_emits(sdf.take(t - 1), key, now)
                + self.spec_emit_one(s[t], key, now))) =~= (self.spec_emit_one(s[0], key, now)
                + self.spec_emits(sdf.take(t - 1), key, now)) + self.spec_emit_one(s[t], key, now));
        }
    }

    /// Delivers one key event: the timestamp of `key` is recorded in every
    /// group containing it, and the actions of every such group whose whole
    /// key set was seen within the window are returned, groups in the order
    /// the key's index row lists them, actions in bound order. A key no
    /// group references is discarded.
    #[verifier::rlimit(100)]
    pub fn handle_key(&mut self, key: u16, now: u64) -> (r: Vec<String>)
        requires
            old(self).wf(),
        ensures
            final(self).wf(),
            final(self).same_config(*old(self)),
            final(self).reverse_lookup == old(self).reverse_lookup,
            stepped_groups(*old(self), *final(self), key, now),
            r.deep_view() == (if old(self).has_rev(key) {
                old(self).spec_emits(old(self).rev_at(key).fingerprints@, key, now)
            } else {
                Seq::<Seq<char>>::empty()
            }),
    {
        let ghost pre = *old(self);
        let mut out: Vec<String> = Vec::new();
        let ri = match find_rev_index(&self.reverse_lookup, key) {
            Some(ri) => ri,
            None => {
                proof {
                    assert(stepped_groups(pre, *self, key, now)) by {
                        assert forall|i: int| 0 <= i < pre.actions@.len() implies !(
                        #[trigger] pre.actions@[i]).mapping.has_key(key) by {
                            if pre.actions@[i].mapping.has_key(key) {
                                let k = choose|k: int|
                                    0 <= k < pre.actions@[i].mapping.key_ids().len()
                                        && pre.actions@[i].mapping.key_ids()[k] == key;
                                assert(pre.actions@[i].mapping.keys@[k].id == key);
                                assert(pre.has_rev(key));
                                assert(pre.reverse_lookup@[pre.rev_index(key)].id == key);
                            }
                        }
                    }
                }
                return out;
            },
        };
        proof {
            pre.lemma_rev_index_is(key, ri as int);
        }
        let mut fps: Vec<u64> = Vec::new();
        let mut j: usize = 0;
        while j < self.reverse_lookup[ri].fingerprints.len()
            invariant
                *self == pre,
                pre.wf(),
                0 <= ri < self.reverse_lookup@.len(),
                j <= self.reverse_lookup@[ri as int].fingerprints@.len(),
                fps@ == self.reverse_lookup@[ri as int].fingerprints@.take(j as int),
            decreases self.reverse_lookup@[ri as int].fingerprints@.len() - j,
        {
            let g = self.reverse_lookup[ri].fingerprints[j];
            fps.push(g);
            j = j + 1;
            proof {
                assert(fps@ =~= self.reverse_lookup@[ri as int].fingerprints@.take(j as int));
            }
        }
        proof {
            assert(fps@ =~= pre.rev_at(key).fingerprints@);
            assert(fps@.take(0) =~= Seq::<u64>::empty());
        }
        let ghost all_fps = fps@;
        let mut t: usize = 0;
        while t < fps.len()
            invariant
                t <= all_fps.len(),
                fps@ == all_fps,
                pre.wf(),
                pre.has_rev(key),
                all_fps == pre.rev_at(key).fingerprints@,
                fps_unique(all_fps),
                forall|g: u64|
                    all_fps.contains(g) ==> pre.has_group(g) && pre.group_at(g).has_key(key),
                self.same_config(pre),
                self.reverse_lookup == pre.reverse_lookup,
                self.actions@.len() == pre.actions@.len(),
                forall|i: int|
                    0 <= i < pre.actions@.len() ==> {
                        let a0 = pre.actions@[i];
                        let a1 = #[trigger] self.actions@[i];
                        &&& a1.fingerprint == a0.fingerprint
                        &&& (if all_fps.take(t as int).contains(a0.fingerprint) {
                            a1.mapping.pressed_from(a0.mapping, key, now)
                        } else {
                            a1.mapping == a0.mapping
                        })
                    },
                out.deep_view() == pre.spec_emits(all_fps.take(t as int), key, now),
            decreases all_fps.len() - t,
        {
            let g = fps[t];
            proof {
                assert(all_fps[t as int] == g);
                assert(all_fps.contains(g));
                assert(!all_fps.take(t as int).contains(g)) by {
                    if all_fps.take(t as int).contains(g) {
                        let u = all_fps.take(t as int);
                        let k = choose|k: int| 0 <= k < u.len() && #[trigger] u[k] == g;
                        assert(all_fps[k] == g);
                    }
                }
                lemma_take_push_contains(all_fps, t as int);
                pre.lemma_spec_emits_take(all_fps, key, now, t as int);
            }
            let gi = match find_group_index(&self.actions, g) {
                Some(gi) => gi,
                None => {
                    proof {
                        let pgi = pre.group_index(g);
                        assert(self.actions@[pgi].fingerprint == g);
                        assert(false);
                    }
                    vstd::pervasive::unreached()
                },
            };
            proof {
                pre.lemma_group_index_is(g, gi as int);
                assert(self.actions@[gi as int].mapping == pre.actions@[gi as int].mapping);
                assert(pre.group_at(g) == pre.actions@[gi as int].mapping);
            }
            let mut entry = self.actions.remove(gi);
            let ghost m0 = entry.mapping;
            entry.mapping.press_key(&key, now);
            let window = self.min_elapsed_time;
            let pressed = entry.mapping.is_pressed(&window, now);
            proof {
                assert(window == pre.min_elapsed_time);
                assert forall|i: int| 0 <= i < m0.keys@.len() implies key_held(
                    (#[trigger] entry.mapping.keys@[i]).last_press,
                    now,
                    window,
                ) == key_held(
                    if m0.keys@[i].id == key {
                        Some(now)
                    } else {
                        m0.keys@[i].last_press
                    },
                    now,
                    window,
                ) by {
                    assert(entry.mapping.keys@[i] == (if m0.keys@[i].id == key {
                        KeyState { id: key, last_press: Some(now) }
                    } else {
                        m0.keys@[i]
                    }));
                }
                assert(pressed == spec_pressed_after(m0, key, now, pre.min_elapsed_time)) by {
                    if entry.mapping.spec_pressed(now, window) {
                        assert forall|i: int| 0 <= i < m0.keys@.len() implies key_held(
                            if (#[trigger] m0.keys@[i]).id == key {
                                Some(now)
                            } else {
                                m0.keys@[i].last_press
                            },
                            now,
                            window,
                        ) by {
                            assert(key_held(entry.mapping.keys@[i].last_press, now, window));
                        }
                    }
                    if spec_pressed_after(m0, key, now, window) {
                        assert forall|i: int| 0 <= i < entry.mapping.keys@.len() implies key_held(
                            (#[trigger] entry.mapping.keys@[i]).last_press,
                            now,
                            window,
                        ) by {
                            assert(key_held(
                                if m0.keys@[i].id == key {
                                    Some(now)
                                } else {
                                    m0.keys@[i].last_press
                                },
                                now,
                                window,
                            ));
                        }
                    }
                }
            }
            let ghost out0 = out.deep_view();
            if pressed {
                let ghost base = out0.len() as int;
                let mut j2: usize = 0;
                while j2 < entry.mapping.actions.len()
                    invariant
                        j2 <= entry.mapping.actions@.len(),
                        out@.len() == base + j2,
                        base == out0.len() as int,
                        forall|k: int| 0 <= k < base ==> out.deep_view()[k] == out0[k],
                        forall|k: int|
                            0 <= k < j2 ==> out.deep_view()[base + k]
                                == entry.mapping.actions.deep_view()[k],
                    decreases entry.mapping.actions@.len() - j2,
                {
                    let a = entry.mapping.actions[j2].clone();
                    proof {
                        assert(a@ == entry.mapping.actions.deep_view()[j2 as int]);
                    }
                    out.push(a);
                    j2 = j2 + 1;
                }
                proof {
                    assert(out.deep_view() =~= out0 + entry.mapping.actions.deep_view());
                    assert(entry.mapping.actions.deep_view() == m0.action_views());
                    assert(pre.spec_emit_one(g, key, now) == m0.action_views());
                    assert(out.deep_view() == out0 + pre.spec_emit_one(g, key, now));
                }
            } else {
                proof {
                    assert(pre.spec_emit_one(g, key, now) =~= Seq::<Seq<char>>::empty());
                    assert(out.deep_view() =~= out0 + pre.spec_emit_one(g, key, now));
                }
            }
            self.actions.insert(gi, entry);
            proof {
                assert(self.actions@.len() == pre.actions@.len());
                assert(out.deep_view() == pre.spec_emits(all_fps.take(t + 1 as int), key, now));
            }
            t = t + 1;
        }
        proof {
            assert(all_fps.take(all_fps.len() as int) =~= all_fps);
            assert(stepped_groups(pre, *self, key, now)) by {
                assert forall|i: int| 0 <= i < pre.actions@.len() implies {
                    let a0 = pre.actions@[i];
                    let a1 = #[trigger] self.actions@[i];
                    if a0.mapping.has_key(key) {
                        a1.mapping.pressed_from(a0.mapping, key, now)
                    } else {
                        a1.mapping == a0.mapping
                    }
                } by {
                    let a0 = pre.actions@[i];
                    if a0.mapping.has_key(key) {
                        let k = choose|k: int|
                            0 <= k < a0.mapping.key_ids().len() && a0.mapping.key_ids()[k] == key;
                        assert(a0.mapping.keys@[k].id == key);
                        assert(pre.rev_at(key).fingerprints@.contains(a0.fingerprint));
                    } else {
                        if all_fps.contains(a0.fingerprint) {
                            pre.lemma_group_index_is(a0.fingerprint, i);
                            assert(pre.group_at(a0.fingerprint).has_key(key));
                        }
                    }
                }
            }
            assert forall|i: int| 0 <= i < pre.actions@.len() implies {
                let a0 = pre.actions@[i];
                let a1 = #[trigger] self.actions@[i];
                &&& a1.fingerprint == a0.fingerprint
                &&& a1.mapping.key_ids() == a0.mapping.key_ids()
                &&& a1.mapping.wf()
                &&& a1.mapping.actions@.len() > 0
            } by {
                let a0 = pre.actions@[i];
                let a1 = self.actions@[i];
                assert(a0.mapping.wf() && a0.mapping.actions@.len() > 0);
                if all_fps.take(all_fps.len() as int).contains(a0.fingerprint) {
                    assert(a1.mapping.pressed_from(a0.mapping, key, now));
                    assert(a1.mapping.key_ids() =~= a0.mapping.key_ids());
                    assert(a1.mapping.actions == a0.mapping.actions);
                    assert(a1.mapping.action_views() == a0.mapping.action_views());
                    assert(a1.mapping.wf());
                } else {
                    assert(a1.mapping == a0.mapping);
                }
            }
            pre.lemma_wf_same_shape(*self);
        }
        out
    }

    /// Drains at most one pending key event and evaluates it: the actions of
    /// every group the event completes within the window are sent to the
    /// emission sink. Never blocks, and must be called at regular intervals;
    /// registrations, the reverse index and the window are never changed by
    /// polling, only groups' timestamps.
    pub fn poll(&mut self, now: u64)
        requires
            old(self).wf(),
        ensures
            final(self).wf(),
            final(self).same_config(*old(self)),
            final(self).reverse_lookup == old(self).reverse_lookup,
            exists|e: Option<u16>| #[trigger] poll_step(*old(self), *final(self), e, now),
    {
        match crate::channel::try_recv_key(&self.callback_receiver) {
            Some(key) => {
                let emitted = self.handle_key(key, now);
                let ghost mid = *self;
                let mut i: usize = 0;
                while i < emitted.len()
                    invariant
                        *self == mid,
                        i <= emitted@.len(),
                    decreases emitted@.len() - i,
                {
                    crate::channel::send_action(&self.listener_sender, emitted[i].clone());
                    i = i + 1;
                }
                proof {
                    assert(poll_step(*old(self), *self, Some(key), now));
                }
            },
            None => {
                proof {
                    assert(poll_step(*old(self), *self, None, now));
                }
            },
        }
    }

    /// Every action name somewhere in the table, by its characters.
    pub open spec fn spec_has_action_name(self, x: Seq<char>) -> bool {
        exists|p: int, q: int|
            #![trigger self.actions@[p].mapping.action_views()[q]]
            0 <= p < self.actions@.len() && 0 <= q < self.actions@[p].mapping.action_views().len()
                && self.actions@[p].mapping.action_views()[q] == x
    }

    /// The distinct action names across all groups, sorted by the byte-wise
    /// lexicographic order of their UTF-8 form.
    pub fn get_action_names(&self) -> (r: Vec<String>)
        ensures
            crate::order::strictly_sorted_names(r.deep_view()),
            forall|x: Seq<char>| r.deep_view().contains(x) <==> self.spec_has_action_name(x),
    {
        let mut r: Vec<String> = Vec::new();
        let mut i: usize = 0;
        while i < self.actions.len()
            invariant
                i <= self.actions@.len(),
                crate::order::strictly_sorted_names(r.deep_view()),
                forall|x: Seq<char>|
                    r.deep_view().contains(x) <==> exists|p: int, q: int|
                        #![trigger self.actions@[p].mapping.action_views()[q]]
                        0 <= p < i && 0 <= q
                            < self.actions@[p].mapping.action_views().len()
                            && self.actions@[p].mapping.action_views()[q] == x,
            decreases self.actions@.len() - i,
        {
            let mut q: usize = 0;
            while q < self.actions[i].mapping.actions.len()
                invariant
                    0 <= i < self.actions@.len(),
                    q <= self.actions@[i as int].mapping.actions@.len(),
                    crate::order::strictly_sorted_names(r.deep_view()),
                    forall|x: Seq<char>|
                        r.deep_view().contains(x) <==> exists|p: int, q2: int|
                            #![trigger self.actions@[p].mapping.action_views()[q2]]
                            0 <= p <= i && 0 <= q2
                                < self.actions@[p].mapping.action_views().len()
                                && (p < i || q2 < q)
                                && self.actions@[p].mapping.action_views()[q2] == x,
                decreases self.actions@[i as int].mapping.actions@.len() - q,
            {
                let ghost r0 = r.deep_view();
                crate::order::insert_name_sorted(&mut r, &self.actions[i].mapping.actions[q]);
                q = q + 1;
                proof {
                    let a = self.actions@[i as int].mapping.action_views()[q - 1];
                    assert(self.actions@[i as int].mapping.actions@[q - 1]@ == a);
                    assert forall|x: Seq<char>|
                        r.deep_view().contains(x) <==> exists|p: int, q2: int|
                            #![trigger self.actions@[p].mapping.action_views()[q2]]
                            0 <= p <= i && 0 <= q2
                                < self.actions@[p].mapping.action_views().len()
                                && (p < i || q2 < q)
                                && self.actions@[p].mapping.action_views()[q2] == x by {
                        if r.deep_view().contains(x) {
                            if x == a {
                                assert(self.actions@[i as int].mapping.action_views()[q - 1] == x);
                            } else {
                                assert(r0.contains(x));
                            }
                        }
                        if exists|p: int, q2: int|
                            #![trigger self.actions@[p].mapping.action_views()[q2]]
                            0 <= p <= i && 0 <= q2
                                < self.actions@[p].mapping.action_views().len()
                                && (p < i || q2 < q)
                                && self.actions@[p].mapping.action_views()[q2] == x {
                            let (p, q2) = choose|p: int, q2: int|
                                #![trigger self.actions@[p].mapping.action_views()[q2]]
                                0 <= p <= i && 0 <= q2
                                    < self.actions@[p].mapping.action_views().len()
                                    && (p < i || q2 < q)
                                    && self.actions@[p].mapping.action_views()[q2] == x;
                            if p == i && q2 == q - 1 {
                                assert(r.deep_view().contains(x));
                            } else {
                                assert(r0.contains(x));
                                assert(r.deep_view().contains(x));
                            }
                        }
                    }
                }
            }
            i = i + 1;
            proof {
                assert forall|x: Seq<char>|
                    r.deep_view().contains(x) <==> exists|p: int, q2: int|
                        #![trigger self.actions@[p].mapping.action_views()[q2]]
                        0 <= p < i && 0 <= q2
                            < self.actions@[p].mapping.action_views().len()
                            && self.actions@[p].mapping.action_views()[q2] == x by {}
            }
        }
        r
    }

    /// Creates a new engine with empty tables, the default trigger window,
    /// a fresh event channel, and the given emission sink.
    pub fn new(listener_sender: crossbeam_channel::Sender<String>) -> (r: Self)
        ensures
            r.wf(),
            r.actions@.len() == 0,
            r.reverse_lookup@.len() == 0,
            r.min_elapsed_time == DEFAULT_MIN_ELAPSED_MS,
            r.listener_sender == listener_sender,
    {
        let (sender, receiver) = crate::channel::new_key_channel();
        HotkeyListener {
            actions: Vec::new(),
            reverse_lookup: Vec::new(),
            min_elapsed_time: DEFAULT_MIN_ELAPSED_MS,
            callback_sender: sender,
            callback_receiver: receiver,
            listener_sender,
        }
    }

    /// A handle that delivers key events into this engine's channel; the hook
    /// collaborator sends one key identifier per physical press.
    pub fn event_sender(&self) -> crossbeam_channel::Sender<u16> {
        crate::channel::clone_key_sender(&self.callback_sender)
    }

    /// The trigger window, in milliseconds.
    pub fn get_min_elapsed_time(&self) -> (r: u64)
        ensures
            r == self.min_elapsed_time,
    {
        self.min_elapsed_time
    }

    /// Replaces the trigger window, in milliseconds; all groups are affected
    /// immediately.
    pub fn set_min_elapsed_time(&mut self, min_elapsed_time: u64)
        ensures
            *final(self) == (HotkeyListener { min_elapsed_time, ..*old(self) }),
    {
        self.min_elapsed_time = min_elapsed_time;
    }

    /// The names of every key currently indexed (so currently hooked), in
    /// index order.
    pub fn get_key_names(&self) -> (r: Vec<String>)
        ensures
            r@.len() == self.reverse_lookup@.len(),
            forall|i: int|
                0 <= i < r@.len() ==> r.deep_view()[i] == (#[trigger] self.reverse_lookup@[i]).name@,
    {
        let mut r: Vec<String> = Vec::new();
        let mut i: usize = 0;
        while i < self.reverse_lookup.len()
            invariant
                i <= self.reverse_lookup@.len(),
                r@.len() == i,
                forall|j: int|
                    0 <= j < i ==> r.deep_view()[j] == (#[trigger] self.reverse_lookup@[j]).name@,
            decreases self.reverse_lookup@.len() - i,
        {
            r.push(self.reverse_lookup[i].name.clone());
            i = i + 1;
        }
        r
    }
}

/// Finds the row of the group table holding a fingerprint.
fn find_group_index(groups: &Vec<GroupEntry>, f: u64) -> (r: Option<usize>)
    ensures
        match r {
            Some(i) => 0 <= i < groups@.len() && groups@[i as int].fingerprint == f,
            None => forall|i: int| 0 <= i < groups@.len() ==> (#[trigger] groups@[i]).fingerprint != f,
        },
{
    let mut i: usize = 0;
    while i < groups.len()
        invariant
            i <= groups@.len(),
            forall|j: int| 0 <= j < i ==> (#[trigger] groups@[j]).fingerprint != f,
        decreases groups@.len() - i,
    {
        if groups[i].fingerprint == f {
            return Some(i);
        }
        i = i + 1;
    }
    None
}

/// Finds the row of the reverse index holding a key.
fn find_rev_index(rev: &Vec<ReverseEntry>, id: u16) -> (r: Option<usize>)
    ensures
        match r {
            Some(i) => 0 <= i < rev@.len() && rev@[i as int].id == id,
            None => forall|i: int| 0 <= i < rev@.len() ==> (#[trigger] rev@[i]).id != id,
        },
{
    let mut i: usize = 0;
    while i < rev.len()
        invariant
            i <= rev@.len(),
            forall|j: int| 0 <= j < i ==> (#[trigger] rev@[j]).id != id,
        decreases rev@.len() - i,
    {
        if rev[i].id == id {
            return Some(i);
        }
        i = i + 1;
    }
    None
}

/// Finds the position of a fingerprint in one index row's list.
fn find_fp_index(fps: &Vec<u64>, f: u64) -> (r: Option<usize>)
    ensures
        match r {
            Some(i) => 0 <= i < fps@.len() && fps@[i as int] == f,
            None => !fps@.contains(f),
        },
{
    let mut i: usize = 0;
    while i < fps.len()
        invariant
            i <= fps@.len(),
            forall|j: int| 0 <= j < i ==> fps@[j] != f,
        decreases fps@.len() - i,
    {
        if fps[i] == f {
            return Some(i);
        }
        i = i + 1;
    }
    None
}

/// Picks the first name in a list that parses to the given key identifier.
fn find_name_for_id(keys: &[String], id: u16) -> (r: String)
    requires
        names_have_id(keys.deep_view(), id),
    ensures
        parsed_key(r@) == Some(id),
        keys.deep_view().contains(r@),
{
    let ghost names = keys.deep_view();
    let mut i: usize = 0;
    while i < keys.len()
        invariant
            i <= names.len(),
            names == keys.deep_view(),
            keys@.len() == names.len(),
            names_have_id(names, id),
            forall|j: int| 0 <= j < i ==> #[trigger] parsed_key(names[j]) != Some(id),
        decreases keys@.len() - i,
    {
        let name = vstd::slice::slice_index_get(keys, i);
        proof {
            assert(names[i as int] == name@);
        }
        if let Some(p) = parse_key_name(name.as_str()) {
            if p == id {
                proof {
                    assert(names.contains(name@));
                }
                return name.clone();
            }
        }
        i = i + 1;
    }
    proof {
        let j = choose|j: int| 0 <= j < names.len() && #[trigger] parsed_key(names[j]) == Some(id);
        assert(false);
    }
    vstd::pervasive::unreached()
}

} // verus!
