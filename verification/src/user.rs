//! Users of the web interface and the chat bot.
use crate::authorisation::Authorisation;
use crate::data_store::DatasetId;
use std::collections::HashMap;
use vstd::prelude::*;

verus! {

broadcast use vstd::std_specs::hash::group_hash_axioms;

pub type UserId = u64;

/// Id of a chat account.
pub type TelegramUserId = i64;

pub struct User {
    pub id: UserId,
    pub name: String,
    pub telegram_id: Option<TelegramUserId>,
    /// For each dataset the user may see, the fields and the right to each.
    pub timeseries_with_access: HashMap<DatasetId, Vec<Authorisation>>,
    /// Unix time, seconds.
    pub last_login: i64,
    /// Chat shortcuts: alias to the command text it stands for.
    pub aliases: Aliases,
    /// The user's chat keyboard, as JSON.
    pub keyboard: Option<String>,
    /// Hours east of UTC.
    pub timezone_offset: i32,
}

/// The rights of each dataset a user may see.
pub open spec fn access_of(user: &User) -> Map<DatasetId, Seq<Authorisation>> {
    Map::new(
        |k: DatasetId| user.timeseries_with_access@.contains_key(k),
        |k: DatasetId| user.timeseries_with_access@[k]@,
    )
}

/// A list of rights is sorted by field, as binary searching it needs.
pub open spec fn sorted_by_field(list: Seq<Authorisation>) -> bool {
    forall|i: int, j: int| 0 <= i < j < list.len() ==> list[i].field() <= list[j].field()
}

/// Every list of rights of the user is sorted by field.
pub open spec fn access_sorted(user: &User) -> bool {
    forall|k: DatasetId| #[trigger]
        user.timeseries_with_access@.contains_key(k) ==> sorted_by_field(
            user.timeseries_with_access@[k]@,
        )
}

/// `list` holds a right to field `f`.
pub open spec fn grants(list: Seq<Authorisation>, f: u8) -> bool {
    exists|i: int| 0 <= i < list.len() && (#[trigger] list[i]).field() == f
}

impl User {
    /// A user with no rights, aliases or keyboard, logged in at `now`.
    pub fn new(id: UserId, name: String, now: i64) -> (user: User)
        ensures
            user.id == id,
            user.name == name,
            user.telegram_id is None,
            user.timeseries_with_access@ == Map::<DatasetId, Vec<Authorisation>>::empty(),
            user.last_login == now,
            user.aliases@ == Map::<Seq<char>, String>::empty(),
            user.keyboard is None,
            user.timezone_offset == 0,
    {
        User {
            id,
            name,
            telegram_id: None,
            timeseries_with_access: HashMap::new(),
            last_login: now,
            aliases: Aliases::new(),
            keyboard: None,
            timezone_offset: 0,
        }
    }

    /// Gives the user the rights `fields` to dataset `set`, replacing earlier ones.
    pub fn set_access(&mut self, set: DatasetId, fields: Vec<Authorisation>)
        ensures
            final(self).timeseries_with_access@ == old(self).timeseries_with_access@.insert(
                set,
                fields,
            ),
            final(self).id == old(self).id,
            final(self).name == old(self).name,
            final(self).telegram_id == old(self).telegram_id,
            final(self).aliases == old(self).aliases,
            final(self).keyboard == old(self).keyboard,
            final(self).timezone_offset == old(self).timezone_offset,
            final(self).last_login == old(self).last_login,
    {
        self.timeseries_with_access.insert(set, fields);
    }

    /// Makes `alias` stand for `command`.
    pub fn set_alias(&mut self, alias: String, command: String)
        ensures
            final(self).aliases@ == old(self).aliases@.insert(alias@, command),
            final(self).id == old(self).id,
            final(self).name == old(self).name,
            final(self).telegram_id == old(self).telegram_id,
            final(self).timeseries_with_access == old(self).timeseries_with_access,
            final(self).keyboard == old(self).keyboard,
            final(self).timezone_offset == old(self).timezone_offset,
            final(self).last_login == old(self).last_login,
    {
        self.aliases.insert(alias, command);
    }
}

/// Searches the sorted list of rights `list` for a right to field `f`.
pub fn has_access(list: &[Authorisation], f: u8) -> (found: bool)
    ensures
        found ==> grants(list@, f),
        sorted_by_field(list@) ==> (found <==> grants(list@, f)),
{
    let mut lo: usize = 0;
    let mut hi: usize = list.len();
    while lo < hi
        invariant
            lo <= hi <= list@.len(),
            sorted_by_field(list@) ==> forall|i: int|
                0 <= i < list@.len() && list@[i].field() == f ==> lo <= i < hi,
        decreases hi - lo,
    {
        let mid = lo + (hi - lo) / 2;
        let g = list[mid].field_id();
        if g == f {
            return true;
        } else if g < f {
            lo = mid + 1;
        } else {
            hi = mid;
        }
    }
    false
}


/// Chat shortcuts, each an alias and the command text it stands for, in the order they
/// were first set.
pub struct Aliases {
    pub entries: Vec<(String, String)>,
}

/// The aliases of `entries`: where an alias occurs twice, the later entry counts.
pub open spec fn alias_map(entries: Seq<(String, String)>) -> Map<Seq<char>, String>
    decreases entries.len(),
{
    if entries.len() == 0 {
        Map::empty()
    } else {
        alias_map(entries.drop_last()).insert(entries.last().0@, entries.last().1)
    }
}

impl View for Aliases {
    type V = Map<Seq<char>, String>;

    open spec fn view(&self) -> Map<Seq<char>, String> {
        alias_map(self.entries@)
    }
}

/// The last entry of `entries` for alias `k`, if any.
pub open spec fn last_entry(entries: Seq<(String, String)>, k: Seq<char>) -> Option<int>
    decreases entries.len(),
{
    if entries.len() == 0 {
        None
    } else if entries.last().0@ == k {
        Some(entries.len() - 1)
    } else {
        last_entry(entries.drop_last(), k)
    }
}

proof fn lemma_last_entry(entries: Seq<(String, String)>, k: Seq<char>)
    ensures
        match last_entry(entries, k) {
            Some(i) => 0 <= i < entries.len() && entries[i].0@ == k && alias_map(entries).contains_key(k)
                && alias_map(entries)[k] == entries[i].1 && forall|j: int|
                i < j < entries.len() ==> entries[j].0@ != k,
            None => !alias_map(entries).contains_key(k) && forall|j: int|
                0 <= j < entries.len() ==> entries[j].0@ != k,
        },
    decreases entries.len(),
{
    if entries.len() > 0 {
        lemma_last_entry(entries.drop_last(), k);
        assert forall|j: int| 0 <= j < entries.len() - 1 implies entries[j] == entries.drop_last()[j] by {}
    }
}

proof fn lemma_update_last_entry(entries: Seq<(String, String)>, i: int, k: String, v: String)
    requires
        last_entry(entries, k@) == Some(i),
    ensures
        alias_map(entries.update(i, (k, v))) == alias_map(entries).insert(k@, v),
    decreases entries.len(),
{
    lemma_last_entry(entries, k@);
    let u = entries.update(i, (k, v));
    if i == entries.len() - 1 {
        assert(u.drop_last() =~= entries.drop_last());
        assert(alias_map(u) =~= alias_map(entries).insert(k@, v));
    } else {
        assert(u.drop_last() =~= entries.drop_last().update(i, (k, v)));
        assert(last_entry(entries.drop_last(), k@) == Some(i));
        lemma_update_last_entry(entries.drop_last(), i, k, v);
        assert(entries.last().0@ != k@);
        assert(alias_map(u) =~= alias_map(entries).insert(k@, v));
    }
}

impl Aliases {
    pub fn new() -> (a: Aliases)
        ensures
            a@ == Map::<Seq<char>, String>::empty(),
    {
        Aliases { entries: Vec::new() }
    }

    /// The command text `k` stands for.
    pub fn get(&self, k: &str) -> (r: Option<&String>)
        ensures
            match r {
                Some(v) => self@.contains_key(k@) && *v == self@[k@],
                None => !self@.contains_key(k@),
            },
    {
        proof {
            lemma_last_entry(self.entries@, k@);
        }
        let mut i: usize = self.entries.len();
        while i > 0
            invariant
                i <= self.entries@.len(),
                forall|j: int| i <= j < self.entries@.len() ==> self.entries@[j].0@ != k@,
            decreases i,
        {
            if crate::bot::same_text(crate::text::chars_of(self.entries[i - 1].0.as_str()).as_slice(), k) {
                proof {
                    lemma_last_entry(self.entries@, k@);
                    assert(self.entries@[i - 1].0@ == k@);
                    match last_entry(self.entries@, k@) {
                        Some(l) => {
                            assert(l == i - 1);
                        },
                        None => {},
                    }
                }
                return Some(&self.entries[i - 1].1);
            }
            i = i - 1;
        }
        proof {
            if let Some(l) = last_entry(self.entries@, k@) {
                assert(self.entries@[l].0@ == k@);
            }
        }
        None
    }

    /// Makes `k` stand for `v`: replaces the text of an alias already set, else adds it.
    pub fn insert(&mut self, k: String, v: String)
        ensures
            final(self)@ == old(self)@.insert(k@, v),
    {
        proof {
            lemma_last_entry(self.entries@, k@);
        }
        let mut i: usize = self.entries.len();
        while i > 0
            invariant
                i <= self.entries@.len(),
                self.entries@ == old(self).entries@,
                forall|j: int| i <= j < self.entries@.len() ==> self.entries@[j].0@ != k@,
            decreases i,
        {
            if crate::bot::same_text(crate::text::chars_of(self.entries[i - 1].0.as_str()).as_slice(), k.as_str()) {
                proof {
                    lemma_last_entry(self.entries@, k@);
                    assert(self.entries@[i - 1].0@ == k@);
                    match last_entry(self.entries@, k@) {
                        Some(l) => {
                            assert(l == i - 1);
                        },
                        None => {},
                    }
                    lemma_update_last_entry(self.entries@, i - 1, k, v);
                }
                self.entries.set(i - 1, (k, v));
                return;
            }
            i = i - 1;
        }
        proof {
            if let Some(l) = last_entry(self.entries@, k@) {
                assert(self.entries@[l].0@ == k@);
            }
        }
        let ghost before = self.entries@;
        self.entries.push((k, v));
        assert(self.entries@.drop_last() =~= before);
    }
}

} // verus!
