//! Finding a user's id by name or by chat account.
use std::collections::HashMap;
use vstd::hash_map::StringHashMap;
use vstd::prelude::*;
use crate::user::{TelegramUserId, User, UserId};

verus! {

broadcast use vstd::std_specs::hash::group_hash_axioms;

pub enum LookupError {
    /// No user has added this chat account.
    TelegramUserNotInDb(TelegramUserId),
    UserNameNotInDb(String),
}

/// Which user has which name, and which user added which chat account.
pub struct UserLookup {
    pub name_to_id: StringHashMap<UserId>,
    pub bot_id_to_id: HashMap<TelegramUserId, UserId>,
}

/// The names after a user changed from `old` to `new`: a changed name is moved to the
/// new one.
pub open spec fn names_after_update(
    names: Map<Seq<char>, UserId>,
    old_name: Seq<char>,
    new_name: Seq<char>,
    new_id: UserId,
) -> Map<Seq<char>, UserId> {
    if new_name != old_name {
        names.remove(old_name).insert(new_name, new_id)
    } else {
        names
    }
}

/// The chat accounts after a user changed from `old` to `new`: a changed account is
/// moved to the new one, or dropped where the user has none now.
pub open spec fn accounts_after_update(
    accounts: Map<TelegramUserId, UserId>,
    old_account: Option<TelegramUserId>,
    new_account: Option<TelegramUserId>,
    new_id: UserId,
) -> Map<TelegramUserId, UserId> {
    if new_account != old_account {
        let removed = match old_account {
            Some(a) => accounts.remove(a),
            None => accounts,
        };
        match new_account {
            Some(a) => removed.insert(a, new_id),
            None => removed,
        }
    } else {
        accounts
    }
}

impl UserLookup {
    pub fn new() -> (l: UserLookup)
        ensures
            l.name_to_id@ == Map::<Seq<char>, UserId>::empty(),
            l.bot_id_to_id@ == Map::<TelegramUserId, UserId>::empty(),
    {
        UserLookup { name_to_id: StringHashMap::new(), bot_id_to_id: HashMap::new() }
    }

    pub fn is_unique_telegram_id(&self, id: &TelegramUserId) -> (b: bool)
        ensures
            b == !self.bot_id_to_id@.contains_key(*id),
    {
        !self.bot_id_to_id.contains_key(id)
    }

    pub fn is_unique_name(&self, name: &str) -> (b: bool)
        ensures
            b == !self.name_to_id@.contains_key(name@),
    {
        !self.name_to_id.contains_key(name)
    }

    pub fn by_name(&self, username: &str) -> (r: Result<UserId, LookupError>)
        ensures
            self.name_to_id@.contains_key(username@) ==> r == Ok::<UserId, LookupError>(
                self.name_to_id@[username@],
            ),
            !self.name_to_id@.contains_key(username@) ==> (r matches Err(
                LookupError::UserNameNotInDb(n),
            ) && n@ == username@),
    {
        match self.name_to_id.get(username) {
            Some(id) => Ok(*id),
            None => Err(LookupError::UserNameNotInDb(crate::text::string_of(crate::text::chars_of(username).as_slice()))),
        }
    }

    pub fn by_telegram_id(&self, telegram_id: &TelegramUserId) -> (r: Result<UserId, LookupError>)
        ensures
            self.bot_id_to_id@.contains_key(*telegram_id) ==> r == Ok::<UserId, LookupError>(
                self.bot_id_to_id@[*telegram_id],
            ),
            !self.bot_id_to_id@.contains_key(*telegram_id) ==> (r matches Err(
                LookupError::TelegramUserNotInDb(t),
            ) && t == *telegram_id),
    {
        match self.bot_id_to_id.get(telegram_id) {
            Some(id) => Ok(*id),
            None => Err(LookupError::TelegramUserNotInDb(*telegram_id)),
        }
    }

    /// Follows a change of a user from `old_user` to `new_user`.
    pub fn update(&mut self, old_user: &User, new_user: &User)
        ensures
            final(self).name_to_id@ == names_after_update(
                old(self).name_to_id@,
                old_user.name@,
                new_user.name@,
                new_user.id,
            ),
            final(self).bot_id_to_id@ == accounts_after_update(
                old(self).bot_id_to_id@,
                old_user.telegram_id,
                new_user.telegram_id,
                new_user.id,
            ),
    {
        if !crate::bot::same_text(crate::text::chars_of(new_user.name.as_str()).as_slice(), old_user.name.as_str()) {
            self.name_to_id.remove(old_user.name.as_str());
            self.name_to_id.insert(new_user.name.clone(), new_user.id);
        }
        if new_user.telegram_id != old_user.telegram_id {
            if let Some(bot_id) = old_user.telegram_id {
                self.bot_id_to_id.remove(&bot_id);
            }
            if let Some(bot_id) = new_user.telegram_id {
                self.bot_id_to_id.insert(bot_id, new_user.id);
            }
        }
    }

    pub fn add(&mut self, name: String, id: UserId)
        ensures
            final(self).name_to_id@ == old(self).name_to_id@.insert(name@, id),
            final(self).bot_id_to_id@ == old(self).bot_id_to_id@,
    {
        self.name_to_id.insert(name, id);
    }

    pub fn remove_by_name(&mut self, name: &str)
        ensures
            final(self).name_to_id@ == old(self).name_to_id@.remove(name@),
            final(self).bot_id_to_id@ == old(self).bot_id_to_id@,
    {
        self.name_to_id.remove(name);
    }

    /// The lookup of the users of the user database, `users` in the order the database
    /// yields them: a later user's name or account replaces an earlier one's.
    pub fn from_user_db(users: &Vec<User>) -> (l: UserLookup)
        ensures
            l.name_to_id@ == names_of(users@),
            l.bot_id_to_id@ == accounts_of(users@),
    {
        let mut l = UserLookup::new();
        let mut i: usize = 0;
        while i < users.len()
            invariant
                i <= users@.len(),
                l.name_to_id@ == names_of(users@.take(i as int)),
                l.bot_id_to_id@ == accounts_of(users@.take(i as int)),
            decreases users@.len() - i,
        {
            let user = &users[i];
            assert(users@.take(i + 1).drop_last() =~= users@.take(i as int));
            l.name_to_id.insert(user.name.clone(), user.id);
            if let Some(bot_id) = user.telegram_id {
                l.bot_id_to_id.insert(bot_id, user.id);
            }
            i = i + 1;
        }
        assert(users@.take(i as int) =~= users@);
        l
    }
}

/// Each user's name, mapped to its id; a later user's replaces an earlier one's.
pub open spec fn names_of(users: Seq<User>) -> Map<Seq<char>, UserId>
    decreases users.len(),
{
    if users.len() == 0 {
        Map::empty()
    } else {
        names_of(users.drop_last()).insert(users.last().name@, users.last().id)
    }
}

/// Each user's chat account, mapped to its id; a later user's replaces an earlier one's.
pub open spec fn accounts_of(users: Seq<User>) -> Map<TelegramUserId, UserId>
    decreases users.len(),
{
    if users.len() == 0 {
        Map::empty()
    } else {
        match users.last().telegram_id {
            Some(t) => accounts_of(users.drop_last()).insert(t, users.last().id),
            None => accounts_of(users.drop_last()),
        }
    }
}

/// A name just added finds its user and is no longer unique; a name just removed finds
/// nobody and is unique again.
pub proof fn lemma_added_name_found(names: Map<Seq<char>, UserId>, name: Seq<char>, id: UserId)
    ensures
        names.insert(name, id).contains_key(name),
        names.insert(name, id)[name] == id,
        !names.remove(name).contains_key(name),
{
}

/// A name that finds a user keeps finding that user through later calls on other
/// names: adding another name, removing another name, or a change of a user who neither
/// had nor takes this name.
pub proof fn lemma_lookup_keeps_other_names(
    names: Map<Seq<char>, UserId>,
    name: Seq<char>,
    other: Seq<char>,
    other_id: UserId,
    old_user: User,
    new_user: User,
)
    requires
        names.contains_key(name),
        other != name,
        old_user.name@ != name,
        new_user.name@ != name,
    ensures
        names.insert(other, other_id).contains_key(name),
        names.insert(other, other_id)[name] == names[name],
        names.remove(other).contains_key(name),
        names.remove(other)[name] == names[name],
        names_after_update(names, old_user.name@, new_user.name@, new_user.id).contains_key(name),
        names_after_update(names, old_user.name@, new_user.name@, new_user.id)[name] == names[name],
{
}

/// After a user changed, the new name and chat account find the user, and a name or
/// account it no longer has finds nobody.
pub proof fn lemma_update_follows_user(
    names: Map<Seq<char>, UserId>,
    accounts: Map<TelegramUserId, UserId>,
    old_user: User,
    new_user: User,
)
    ensures
        new_user.name@ != old_user.name@ ==> names_after_update(
            names,
            old_user.name@,
            new_user.name@,
            new_user.id,
        )[new_user.name@] == new_user.id,
        new_user.name@ != old_user.name@ ==> names_after_update(
            names,
            old_user.name@,
            new_user.name@,
            new_user.id,
        ).contains_key(new_user.name@) && !names_after_update(
            names,
            old_user.name@,
            new_user.name@,
            new_user.id,
        ).contains_key(old_user.name@),
        new_user.telegram_id != old_user.telegram_id ==> match new_user.telegram_id {
            Some(t) => accounts_after_update(
                accounts,
                old_user.telegram_id,
                new_user.telegram_id,
                new_user.id,
            )[t] == new_user.id,
            None => true,
        },
        new_user.telegram_id != old_user.telegram_id ==> match old_user.telegram_id {
            Some(t) => !accounts_after_update(
                accounts,
                old_user.telegram_id,
                new_user.telegram_id,
                new_user.id,
            ).contains_key(t),
            None => true,
        },
{
}


impl LookupError {
    /// The message for the user.
    pub fn to_text(&self) -> (s: String)
        ensures
            s@ == match self {
                LookupError::TelegramUserNotInDb(t) => "this telegram account may not use this bot, to be able to use this bot add your telegram id: "@
                    + crate::text::signed_repr(*t as int) + " to your account"@,
                LookupError::UserNameNotInDb(n) => "I know no user by the name: "@ + n@,
            },
    {
        let mut s = String::new();
        match self {
            LookupError::TelegramUserNotInDb(t) => {
                crate::text::push_str(
                    &mut s,
                    "this telegram account may not use this bot, to be able to use this bot add your telegram id: ",
                );
                crate::text::push_signed(&mut s, *t);
                crate::text::push_str(&mut s, " to your account");
            },
            LookupError::UserNameNotInDb(n) => {
                crate::text::push_str(&mut s, "I know no user by the name: ");
                crate::text::push_str(&mut s, n.as_str());
            },
        }
        s
    }
}

} // verus!
