use vstd::prelude::*;
use vstd::string::StringExecFns;
use crate::value::text_eq;

verus! {

/// Name of the directory under an account that holds the saved databases.
pub const SAVED_VARIABLES_DIR: &'static str = "SavedVariables";

/// File name of an account's saved database.
pub const DB_FILE_NAME: &'static str = "BagSyncString.lua";

/// The characters found under one realm directory at startup.
pub struct Realm {
    pub characters: Vec<String>,
}

/// An account, the directory it lives in, and its realms by name.
pub struct Account {
    pub name: String,
    pub realms: Vec<(String, Realm)>,
    pub dir: String,
}

impl Realm {
    pub open spec fn has_character(&self, c: Seq<char>) -> bool {
        exists|j: int| 0 <= j < self.characters@.len() && (#[trigger] self.characters@[j])@ == c
    }
}

impl Account {
    /// Realm `i` is named `r`.
    pub open spec fn realm_named(&self, i: int, r: Seq<char>) -> bool {
        0 <= i < self.realms@.len() && (#[trigger] self.realms@[i]).0@ == r
    }

    /// Realm names are unique.
    pub open spec fn wf(&self) -> bool {
        forall|i: int, j: int|
            0 <= i < j < self.realms@.len() ==> (#[trigger] self.realms@[i]).0@ != (#[trigger] self.realms@[j]).0@
    }

    /// Some realm named `r` of this account lists the character `c`.
    pub open spec fn knows(&self, r: Seq<char>, c: Seq<char>) -> bool {
        exists|i: int| #[trigger] self.realm_named(i, r) && self.realms@[i].1.has_character(c)
    }

    /// An account with no realms yet.
    pub fn new(name: &str, dir: &str) -> (r: Account)
        ensures
            r.name@ == name@,
            r.dir@ == dir@,
            r.realms@.len() == 0,
            r.wf(),
    {
        Account { name: String::from_str(name), realms: Vec::new(), dir: String::from_str(dir) }
    }

    /// Path of this account's saved database, below its directory.
    pub fn bagsync_db_path(&self) -> (r: String)
        ensures
            r@ == self.dir@ + "/"@ + SAVED_VARIABLES_DIR@ + "/"@ + DB_FILE_NAME@,
    {
        self.dir.clone().concat("/").concat(SAVED_VARIABLES_DIR).concat("/").concat(DB_FILE_NAME)
    }

    /// Index of the first realm named `realm`.
    pub fn find_realm(&self, realm: &str) -> (r: Option<usize>)
        ensures
            match r {
                Some(i) => self.realm_named(i as int, realm@) && forall|j: int|
                    0 <= j < i ==> !#[trigger] self.realm_named(j, realm@),
                None => forall|j: int| !#[trigger] self.realm_named(j, realm@),
            },
    {
        let mut i: usize = 0;
        while i < self.realms.len()
            invariant
                i <= self.realms@.len(),
                forall|j: int| 0 <= j < i ==> !#[trigger] self.realm_named(j, realm@),
            decreases self.realms@.len() - i,
        {
            if text_eq(self.realms[i].0.as_str(), realm) {
                return Some(i);
            }
            i = i + 1;
        }
        None
    }

    /// Records that `character` was found under the realm directory `realm`,
    /// adding the realm where it is new.
    pub fn add_character(&mut self, realm: &str, character: &str)
        ensures
            final(self).name == old(self).name,
            final(self).dir == old(self).dir,
            old(self).wf() ==> final(self).wf(),
            forall|r: Seq<char>, c: Seq<char>|
                #[trigger] final(self).knows(r, c) <==> old(self).knows(r, c) || (r == realm@ && c == character@),
    {
        let ghost pre = *self;
        match self.find_realm(realm) {
            Some(i) => {
                let mut entry = (String::new(), Realm { characters: Vec::new() });
                self.realms.set_and_swap(i, &mut entry);
                let ghost old_chars = entry.1.characters@;
                entry.1.characters.push(String::from_str(character));
                self.realms.set(i, entry);
                assert(entry.0 == pre.realms@[i as int].0);
                assert forall|a: int| 0 <= a < self.realms@.len() implies (#[trigger] self.realms@[a]).0 == pre.realms@[a].0 by {
                }
                assert forall|r: Seq<char>, c: Seq<char>|
                    #[trigger] self.knows(r, c) <==> pre.knows(r, c) || (r == realm@ && c == character@) by {
                    if self.knows(r, c) {
                        let k = choose|k: int| #[trigger] self.realm_named(k, r) && self.realms@[k].1.has_character(c);
                        if k != i {
                            assert(pre.realm_named(k, r));
                        } else if !(r == realm@ && c == character@) {
                            let j = choose|j: int| 0 <= j < self.realms@[k].1.characters@.len()
                                && (#[trigger] self.realms@[k].1.characters@[j])@ == c;
                            assert(j < old_chars.len());
                            assert(pre.realms@[k].1.characters@[j] == self.realms@[k].1.characters@[j]);
                            assert(pre.realm_named(k, r));
                        }
                    }
                    if pre.knows(r, c) {
                        let k = choose|k: int| #[trigger] pre.realm_named(k, r) && pre.realms@[k].1.has_character(c);
                        assert(self.realm_named(k, r));
                        if k == i {
                            let j = choose|j: int| 0 <= j < pre.realms@[k].1.characters@.len()
                                && (#[trigger] pre.realms@[k].1.characters@[j])@ == c;
                            assert(self.realms@[k].1.characters@[j] == pre.realms@[k].1.characters@[j]);
                        }
                    }
                    if r == realm@ && c == character@ {
                        assert(self.realm_named(i as int, r));
                        let last = self.realms@[i as int].1.characters@.len() - 1;
                        assert(self.realms@[i as int].1.characters@[last]@ == c);
                    }
                }
            },
            None => {
                let mut characters: Vec<String> = Vec::new();
                characters.push(String::from_str(character));
                self.realms.push((String::from_str(realm), Realm { characters }));
                assert forall|a: int, b: int| 0 <= a < b < self.realms@.len() && pre.wf() implies (#[trigger] self.realms@[a]).0@
                    != (#[trigger] self.realms@[b]).0@ by {
                    if b == pre.realms@.len() {
                        assert(!pre.realm_named(a, realm@));
                    } else {
                        assert(self.realms@[a] == pre.realms@[a] && self.realms@[b] == pre.realms@[b]);
                    }
                }
                assert forall|r: Seq<char>, c: Seq<char>|
                    #[trigger] self.knows(r, c) <==> pre.knows(r, c) || (r == realm@ && c == character@) by {
                    let n = pre.realms@.len() as int;
                    if self.knows(r, c) {
                        let k = choose|k: int| #[trigger] self.realm_named(k, r) && self.realms@[k].1.has_character(c);
                        if k < n {
                            assert(pre.realm_named(k, r));
                        } else {
                            let j = choose|j: int| 0 <= j < self.realms@[k].1.characters@.len()
                                && (#[trigger] self.realms@[k].1.characters@[j])@ == c;
                        }
                    }
                    if pre.knows(r, c) {
                        let k = choose|k: int| #[trigger] pre.realm_named(k, r) && pre.realms@[k].1.has_character(c);
                        assert(self.realm_named(k, r));
                    }
                    if r == realm@ && c == character@ {
                        assert(self.realm_named(n, r));
                        assert(self.realms@[n].1.characters@[0]@ == c);
                    }
                }
            },
        }
    }

    /// Whether `character` was found under a realm `realm` of this account.
    pub fn knows_character(&self, realm: &str, character: &str) -> (r: bool)
        ensures
            r == self.knows(realm@, character@),
    {
        let mut i: usize = 0;
        while i < self.realms.len()
            invariant
                i <= self.realms@.len(),
                forall|k: int| 0 <= k < i ==> !(#[trigger] self.realm_named(k, realm@) && self.realms@[k].1.has_character(character@)),
            decreases self.realms@.len() - i,
        {
            if text_eq(self.realms[i].0.as_str(), realm) {
                let chars = &self.realms[i].1.characters;
                let mut j: usize = 0;
                while j < chars.len()
                    invariant
                        *chars == self.realms@[i as int].1.characters,
                        i < self.realms@.len(),
                        self.realms@[i as int].0@ == realm@,
                        forall|k: int| 0 <= k < i ==> !(#[trigger] self.realm_named(k, realm@) && self.realms@[k].1.has_character(character@)),
                        j <= chars@.len(),
                        forall|m: int| 0 <= m < j ==> (#[trigger] chars@[m])@ != character@,
                    decreases chars@.len() - j,
                {
                    if text_eq(chars[j].as_str(), character) {
                        assert(self.realm_named(i as int, realm@));
                        return true;
                    }
                    j = j + 1;
                }
            }
            i = i + 1;
        }
        false
    }
}

/// Whether a directory entry under an account directory is a realm: a
/// directory other than the one holding the saved databases.
pub fn is_realm_dir(name: &str, is_dir: bool) -> (r: bool)
    ensures
        r == (is_dir && name@ != SAVED_VARIABLES_DIR@),
{
    is_dir && !text_eq(name, SAVED_VARIABLES_DIR)
}

} // verus!
