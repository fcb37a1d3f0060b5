//! The roster store: participants in insertion order and the last holder of
//! each role.

use vstd::prelude::*;

use crate::fold::{identity_key, lower_of, same_identity};

verus! {

/// The roster and the last chair and note taker, by name.
pub struct Data {
    pub last_chair: Option<String>,
    pub last_note_taker: Option<String>,
    pub members: Vec<String>,
}

/// The mathematical model of a [`Data`].
pub struct DataView {
    pub last_chair: Option<Seq<char>>,
    pub last_note_taker: Option<Seq<char>>,
    pub members: Seq<Seq<char>>,
}

/// A role override or a lookup named someone who is not on the roster.
pub struct UnknownMember {
    pub name: String,
}

pub open spec fn opt_view(o: Option<String>) -> Option<Seq<char>> {
    match o {
        Some(s) => Some(s@),
        None => None,
    }
}

pub open spec fn names_of(v: Seq<String>) -> Seq<Seq<char>> {
    v.map_values(|s: String| s@)
}

/// The identity keys of a sequence of names.
pub open spec fn keys_of(names: Seq<Seq<char>>) -> Seq<Seq<char>> {
    names.map_values(|n: Seq<char>| lower_of(n))
}

/// Position `i` of `keys` holds `key`.
pub open spec fn is_match(keys: Seq<Seq<char>>, key: Seq<char>, i: int) -> bool {
    0 <= i < keys.len() && keys[i] == key
}

/// Position `i` is the only position of `keys` that holds `key`.
pub open spec fn sole_match(keys: Seq<Seq<char>>, key: Seq<char>, i: int) -> bool {
    is_match(keys, key, i) && forall|j: int| #[trigger] is_match(keys, key, j) ==> j == i
}

pub open spec fn has_sole_match(keys: Seq<Seq<char>>, key: Seq<char>) -> bool {
    exists|i: int| sole_match(keys, key, i)
}

/// No two positions of `keys` hold the same key.
pub open spec fn keys_unique(keys: Seq<Seq<char>>) -> bool {
    forall|i: int, j: int|
        0 <= i < keys.len() && 0 <= j < keys.len() && i != j ==> #[trigger] keys[i] != #[trigger] keys[j]
}

impl DataView {
    pub open spec fn keys(self) -> Seq<Seq<char>> {
        keys_of(self.members)
    }

    /// `name` resolves to exactly one participant.
    pub open spec fn finds(self, name: Seq<char>) -> bool {
        has_sole_match(self.keys(), lower_of(name))
    }

    /// The position that `name` resolves to, where [`DataView::finds`] holds.
    pub open spec fn position_of(self, name: Seq<char>) -> int {
        choose|i: int| sole_match(self.keys(), lower_of(name), i)
    }

    /// Some participant matches `name`, case-insensitively.
    pub open spec fn present(self, name: Seq<char>) -> bool {
        exists|i: int| is_match(self.keys(), lower_of(name), i)
    }

    /// No two participants share an identity.
    pub open spec fn wf(self) -> bool {
        keys_unique(self.keys())
    }

    /// The role holder `holder` is cleared where it denotes `name`.
    pub open spec fn cleared(holder: Option<Seq<char>>, name: Seq<char>) -> Option<Seq<char>> {
        match holder {
            Some(h) => if lower_of(h) == lower_of(name) {
                None
            } else {
                holder
            },
            None => None,
        }
    }

    pub open spec fn with_chair(self, name: Seq<char>) -> DataView {
        DataView { last_chair: Some(name), ..self }
    }

    pub open spec fn with_note_taker(self, name: Seq<char>) -> DataView {
        DataView { last_note_taker: Some(name), ..self }
    }

    /// Adding one name: appended unless it already resolves.
    pub open spec fn add_one(self, name: Seq<char>) -> DataView {
        if self.finds(name) {
            self
        } else {
            DataView { members: self.members.push(name), ..self }
        }
    }

    /// Adding names one after another, in order.
    pub open spec fn add_all(self, names: Seq<Seq<char>>) -> DataView
        decreases names.len(),
    {
        if names.len() == 0 {
            self
        } else {
            self.add_all(names.drop_last()).add_one(names.last())
        }
    }

    /// Removing one name: where it resolves, the participant leaves and each
    /// role that it held is cleared; otherwise nothing changes.
    pub open spec fn remove_one(self, name: Seq<char>) -> DataView {
        if self.finds(name) {
            DataView {
                last_chair: DataView::cleared(self.last_chair, name),
                last_note_taker: DataView::cleared(self.last_note_taker, name),
                members: self.members.remove(self.position_of(name)),
            }
        } else {
            self
        }
    }

    /// Removing names one after another, in order.
    pub open spec fn remove_all(self, names: Seq<Seq<char>>) -> DataView
        decreases names.len(),
    {
        if names.len() == 0 {
            self
        } else {
            self.remove_all(names.drop_last()).remove_one(names.last())
        }
    }
}

impl View for Data {
    type V = DataView;

    open spec fn view(&self) -> DataView {
        DataView {
            last_chair: opt_view(self.last_chair),
            last_note_taker: opt_view(self.last_note_taker),
            members: names_of(self.members@),
        }
    }
}

impl Default for Data {
    fn default() -> (r: Self)
        ensures
            r@.members.len() == 0,
            r@.last_chair is None,
            r@.last_note_taker is None,
    {
        Data::new()
    }
}

/// The position of the only entry of `keys` equal to `key`, or `None` where
/// there is none or more than one.
pub fn sole_match_index(keys: &Vec<String>, key: &String) -> (r: Option<usize>)
    ensures
        match r {
            Some(i) => sole_match(names_of(keys@), key@, i as int),
            None => !has_sole_match(names_of(keys@), key@),
        },
{
    let ghost ks = names_of(keys@);
    let mut found: Option<usize> = None;
    let mut i: usize = 0;
    while i < keys.len()
        invariant
            ks == names_of(keys@),
            i <= keys@.len(),
            match found {
                Some(f) => f < i && is_match(ks, key@, f as int) && forall|j: int|
                    0 <= j < i && #[trigger] is_match(ks, key@, j) ==> j == f,
                None => forall|j: int| 0 <= j < i ==> !#[trigger] is_match(ks, key@, j),
            },
        decreases keys@.len() - i,
    {
        if keys[i] == *key {
            match found {
                Some(f) => {
                    assert(is_match(ks, key@, i as int));
                    assert(is_match(ks, key@, f as int));
                    assert forall|k: int| !sole_match(ks, key@, k) by {
                        if sole_match(ks, key@, k) {
                            assert(i == k && f == k);
                        }
                    }
                    return None;
                },
                None => {
                    found = Some(i);
                },
            }
        }
        i += 1;
    }
    match found {
        Some(f) => {},
        None => {
            assert forall|k: int| !sole_match(ks, key@, k) by {
                if sole_match(ks, key@, k) {
                    assert(is_match(ks, key@, k));
                }
            }
        },
    }
    found
}

impl Data {
    /// An empty roster with no role holders.
    pub fn new() -> (r: Self)
        ensures
            r@.members.len() == 0,
            r@.last_chair is None,
            r@.last_note_taker is None,
    {
        Data { last_chair: None, last_note_taker: None, members: Vec::new() }
    }

    /// The identity keys of the participants, in roster order.
    fn member_keys(&self) -> (r: Vec<String>)
        ensures
            names_of(r@) == self@.keys(),
    {
        let mut r: Vec<String> = Vec::new();
        let mut i: usize = 0;
        while i < self.members.len()
            invariant
                i <= self.members@.len(),
                r@.len() == i,
                self@.keys().len() == self.members@.len(),
                names_of(r@) == self@.keys().take(i as int),
            decreases self.members@.len() - i,
        {
            let k = identity_key(self.members[i].as_str());
            assert(self@.keys()[i as int] == lower_of(self.members@[i as int]@));
            let ghost before = r@;
            r.push(k);
            assert forall|j: int| 0 <= j < before.len() implies names_of(r@)[j] == names_of(before)[j] by {
                assert(r@[j] == before[j]);
            }
            i += 1;
            assert(names_of(r@) =~= self@.keys().take(i as int));
        }
        assert(self@.keys().take(i as int) =~= self@.keys());
        r
    }

    /// The position of the participant that `name` denotes, ignoring case;
    /// `None` where no participant or more than one matches.
    pub fn get_member_id(&self, name: &str) -> (r: Option<usize>)
        ensures
            match r {
                Some(i) => self@.finds(name@) && sole_match(self@.keys(), lower_of(name@), i as int),
                None => !self@.finds(name@),
            },
    {
        let keys = self.member_keys();
        let key = identity_key(name);
        sole_match_index(&keys, &key)
    }

    /// Records `name` as the last chair; fails where it does not resolve to
    /// exactly one participant, leaving the store unchanged.
    pub fn change_last_chair(&mut self, name: &str) -> (r: Result<(), UnknownMember>)
        ensures
            r is Ok <==> old(self)@.finds(name@),
            r is Ok ==> final(self)@ == old(self)@.with_chair(name@),
            r matches Err(e) ==> e.name@ == name@ && final(self)@ == old(self)@,
    {
        match self.get_member_id(name) {
            Some(_) => {
                self.last_chair = Some(name.to_owned());
                Ok(())
            },
            None => Err(UnknownMember { name: name.to_owned() }),
        }
    }

    /// Records `name` as the last note taker; fails where it does not
    /// resolve to exactly one participant, leaving the store unchanged.
    pub fn change_last_note_taker(&mut self, name: &str) -> (r: Result<(), UnknownMember>)
        ensures
            r is Ok <==> old(self)@.finds(name@),
            r is Ok ==> final(self)@ == old(self)@.with_note_taker(name@),
            r matches Err(e) ==> e.name@ == name@ && final(self)@ == old(self)@,
    {
        match self.get_member_id(name) {
            Some(_) => {
                self.last_note_taker = Some(name.to_owned());
                Ok(())
            },
            None => Err(UnknownMember { name: name.to_owned() }),
        }
    }

    /// Appends each name in turn unless it already resolves to a participant.
    pub fn add_members(&mut self, names: Vec<String>)
        ensures
            final(self)@ == old(self)@.add_all(names_of(names@)),
            old(self)@.wf() ==> final(self)@.wf(),
    {
        let ghost start = self@;
        let ghost all = names_of(names@);
        let mut i: usize = 0;
        while i < names.len()
            invariant
                i <= names@.len(),
                all == names_of(names@),
                self@ == start.add_all(all.take(i as int)),
                start.wf() ==> self@.wf(),
            decreases names@.len() - i,
        {
            let name = names[i].as_str();
            proof {
                assert(all.take(i + 1).drop_last() =~= all.take(i as int));
                assert(all.take(i + 1).last() == name@);
                lemma_add_one_keeps_wf(self@, name@);
            }
            let ghost before = self@;
            if self.get_member_id(name).is_none() {
                self.members.push(name.to_owned());
                assert(names_of(self.members@) =~= before.members.push(name@));
            }
            i += 1;
        }
        assert(all.take(i as int) =~= all);
    }

    /// Removes each name in turn where it resolves to a participant, clearing
    /// every role that the removed participant held.
    pub fn remove_members(&mut self, names: Vec<String>)
        ensures
            final(self)@ == old(self)@.remove_all(names_of(names@)),
            old(self)@.wf() ==> final(self)@.wf(),
    {
        let ghost start = self@;
        let ghost all = names_of(names@);
        let mut i: usize = 0;
        while i < names.len()
            invariant
                i <= names@.len(),
                all == names_of(names@),
                self@ == start.remove_all(all.take(i as int)),
                start.wf() ==> self@.wf(),
            decreases names@.len() - i,
        {
            let name = names[i].as_str();
            proof {
                assert(all.take(i + 1).drop_last() =~= all.take(i as int));
                assert(all.take(i + 1).last() == name@);
                lemma_remove_one_keeps_wf(self@, name@);
            }
            let ghost before = self@;
            if let Some(id) = self.get_member_id(name) {
                assert(before.position_of(name@) == id as int);
                let clear_chair = match &self.last_chair {
                    Some(c) => same_identity(c.as_str(), name),
                    None => false,
                };
                if clear_chair {
                    self.last_chair = None;
                }
                let clear_note_taker = match &self.last_note_taker {
                    Some(c) => same_identity(c.as_str(), name),
                    None => false,
                };
                if clear_note_taker {
                    self.last_note_taker = None;
                }
                self.members.remove(id);
                assert(names_of(self.members@) =~= before.members.remove(id as int));
            }
            i += 1;
        }
        assert(all.take(i as int) =~= all);
    }
}

/// Where no two participants share an identity, a name that matches any
/// participant resolves to it.
pub proof fn lemma_present_finds(d: DataView, name: Seq<char>, i: int)
    requires
        d.wf(),
        is_match(d.keys(), lower_of(name), i),
    ensures
        d.finds(name),
        sole_match(d.keys(), lower_of(name), i),
{
    assert forall|j: int| #[trigger] is_match(d.keys(), lower_of(name), j) implies j == i by {
        if j != i {
            assert(d.keys()[i] != d.keys()[j]);
        }
    }
    assert(sole_match(d.keys(), lower_of(name), i));
}

/// Adding a name keeps identities unique.
pub proof fn lemma_add_one_keeps_wf(d: DataView, name: Seq<char>)
    ensures
        d.wf() ==> d.add_one(name).wf(),
{
    if d.wf() && !d.finds(name) {
        let e = d.add_one(name);
        assert forall|i: int| 0 <= i < d.keys().len() implies d.keys()[i] != lower_of(name) by {
            if d.keys()[i] == lower_of(name) {
                lemma_present_finds(d, name, i);
            }
        }
        assert(e.keys() =~= d.keys().push(lower_of(name)));
    }
}

/// Removing a name keeps identities unique.
pub proof fn lemma_remove_one_keeps_wf(d: DataView, name: Seq<char>)
    ensures
        d.wf() ==> d.remove_one(name).wf(),
{
    if d.wf() && d.finds(name) {
        let p = d.position_of(name);
        assert(d.keys().remove(p) =~= d.remove_one(name).keys());
    }
}


/// Adding a name that some participant already has, in any case, changes
/// nothing: no entry is appended and the roster keeps its size.
pub proof fn lemma_add_present_is_noop(d: DataView, name: Seq<char>)
    requires
        d.wf(),
        d.present(name),
    ensures
        d.add_all(seq![name]) == d,
        d.add_all(seq![name]).members.len() == d.members.len(),
{
    let i = choose|i: int| is_match(d.keys(), lower_of(name), i);
    lemma_present_finds(d, name, i);
    let one = seq![name];
    assert(one.drop_last() =~= Seq::<Seq<char>>::empty());
    assert(one.last() == name);
    assert(d.add_all(one.drop_last()) == d);
    assert(d.add_one(name) == d);
}

/// Removing a participant clears each role that it held and leaves every
/// other role as it was; a name that resolves to no one changes nothing.
pub proof fn lemma_remove_clears_only_its_roles(d: DataView, name: Seq<char>)
    ensures
        d.finds(name) ==> {
            let e = d.remove_one(name);
            &&& (d.last_chair matches Some(h) && lower_of(h) == lower_of(name)) ==> e.last_chair is None
            &&& !(d.last_chair matches Some(h) && lower_of(h) == lower_of(name)) ==> e.last_chair == d.last_chair
            &&& (d.last_note_taker matches Some(h) && lower_of(h) == lower_of(name)) ==> e.last_note_taker is None
            &&& !(d.last_note_taker matches Some(h) && lower_of(h) == lower_of(name)) ==> e.last_note_taker == d.last_note_taker
            &&& e.members.len() == d.members.len() - 1
        },
        !d.finds(name) ==> d.remove_one(name) == d,
{
}

/// Where identities are unique, a removed participant is no longer on the
/// roster.
pub proof fn lemma_removed_is_absent(d: DataView, name: Seq<char>)
    requires
        d.wf(),
        d.finds(name),
    ensures
        !d.remove_one(name).present(name),
{
    let p = d.position_of(name);
    let e = d.remove_one(name);
    assert(e.keys() =~= d.keys().remove(p));
    assert forall|i: int| !is_match(e.keys(), lower_of(name), i) by {
        if is_match(e.keys(), lower_of(name), i) {
            if i < p {
                assert(is_match(d.keys(), lower_of(name), i));
            } else {
                assert(is_match(d.keys(), lower_of(name), i + 1));
            }
        }
    }
}

} // verus!
