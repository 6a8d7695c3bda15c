use vstd::prelude::*;
use vstd::string::StringExecFns;
use crate::value::{Value, field, first_key, has_key, is_text, key_at, find_text_key, lemma_field_at, lemma_first_key_exists, lemma_first_key_unique, text_eq};
use crate::inventory::{CharacterInventoryData, InventorySet, represents, table_form};
use crate::topology::Account;

verus! {

/// Name of the global that the saved database assigns.
pub const DB_GLOBAL: &'static str = "BagSyncDB";

/// The document read in place of a database file that does not exist yet.
pub const EMPTY_DB: &'static str = "BagSyncDB={}";

/// Last character of the top-level keys that hold internal data rather than a
/// realm.
pub const RESERVED_SUFFIX: char = '\u{a7}';

/// The decoded content of one account's saved database: top-level keys, in
/// the order in which they were read, each with its value.
pub struct Database {
    pub entries: Vec<(String, Value)>,
}

/// Keys are unique: at the top level, and among the text keys of each table
/// there, as in a decoded table.
pub open spec fn keys_unique(es: Seq<(String, Value)>) -> bool {
    &&& forall|a: int, b: int| 0 <= a < b < es.len() ==> (#[trigger] es[a]).0@ != (#[trigger] es[b]).0@
    &&& forall|a: int, x: int, y: int|
        0 <= a < es.len() && es[a].1 is Table && 0 <= x < y < es[a].1->Table_0@.len() && es[a].1->Table_0@[x].0 is Text
            && es[a].1->Table_0@[y].0 is Text ==> (#[trigger] es[a].1->Table_0@[x]).0->Text_0@
            != (#[trigger] es[a].1->Table_0@[y]).0->Text_0@
}

impl Database {
    pub open spec fn wf(&self) -> bool {
        keys_unique(self.entries@)
    }
}

pub open spec fn is_reserved_name(s: Seq<char>) -> bool {
    s.len() > 0 && s.last() == RESERVED_SUFFIX
}

/// Entry `i` is the first top-level entry with its key.
pub open spec fn first_realm(es: Seq<(String, Value)>, i: int) -> bool {
    0 <= i < es.len() && forall|j: int| 0 <= j < i ==> (#[trigger] es[j]).0@ != es[i].0@
}

/// One of the first `n` sets is for realm `r` and character `c`.
pub open spec fn targets(sets: Seq<InventorySet>, n: int, r: Seq<char>, c: Seq<char>) -> bool {
    exists|k: int|
        0 <= k < n && (#[trigger] sets[k]).realm_name@ == r && sets[k].character_name@ == c
}

/// No set after `k` among the first `n` is for the same realm and character.
pub open spec fn last_for(sets: Seq<InventorySet>, n: int, k: int) -> bool {
    forall|m: int|
        k < m < n ==> !((#[trigger] sets[m]).realm_name@ == sets[k].realm_name@
            && sets[m].character_name@ == sets[k].character_name@)
}

/// Slot `j` of `t` is the one that a set among the first `n` for realm `r`
/// writes: the first slot keyed by that set's character.
pub open spec fn touched(t: Seq<(Value, Value)>, j: int, r: Seq<char>, sets: Seq<InventorySet>, n: int) -> bool {
    &&& t[j].0 is Text
    &&& first_key(t, t[j].0->Text_0@, j)
    &&& targets(sets, n, r, t[j].0->Text_0@)
}

/// `t2` is the realm table `t`, of realm `r`, after the first `n` sets were
/// merged: keys kept, untouched slots kept, new slots only for characters that
/// were missing, and each character holding its last snapshot.
pub open spec fn table_post(
    t: Seq<(Value, Value)>,
    t2: Seq<(Value, Value)>,
    r: Seq<char>,
    sets: Seq<InventorySet>,
    n: int,
) -> bool {
    &&& t.len() <= t2.len()
    &&& forall|j: int|
        0 <= j < t.len() ==> (#[trigger] t2[j]).0 == t[j].0 && (!touched(t, j, r, sets, n) ==> t2[j].1 == t[j].1)
    &&& forall|j: int|
        t.len() <= j < t2.len() ==> {
            &&& (#[trigger] t2[j]).0 is Text
            &&& targets(sets, n, r, t2[j].0->Text_0@)
            &&& !has_key(t, t2[j].0->Text_0@)
        }
    &&& forall|j1: int, j2: int|
        t.len() <= j1 < j2 < t2.len() ==> (#[trigger] t2[j1]).0->Text_0@ != (#[trigger] t2[j2]).0->Text_0@
    &&& forall|k: int|
        0 <= k < n && (#[trigger] sets[k]).realm_name@ == r && last_for(sets, n, k) ==> (field(
            t2,
            sets[k].character_name@,
        ) matches Some(v) && represents(v, sets[k].character_inventory_data) && table_form(
            v,
            sets[k].character_inventory_data,
        ))
}

/// `es2` is the database `es` after all of `sets` were merged into it.
pub open spec fn update_post(es: Seq<(String, Value)>, es2: Seq<(String, Value)>, sets: Seq<InventorySet>) -> bool {
    &&& es2.len() == es.len()
    &&& forall|i: int| 0 <= i < es.len() ==> (#[trigger] es2[i]).0 == es[i].0
    &&& forall|i: int|
        0 <= i < es.len() && !(es[i].1 is Table && first_realm(es, i)) ==> (#[trigger] es2[i]).1 == es[i].1
    &&& forall|i: int|
        0 <= i < es.len() && es[i].1 is Table && first_realm(es, i) ==> {
            &&& (#[trigger] es2[i]).1 is Table
            &&& table_post(es[i].1->Table_0@, es2[i].1->Table_0@, es[i].0@, sets, sets.len() as int)
        }
}

/// `t2` is `t` with the character `c` set to a table form of `d`.
pub open spec fn put_post(t: Seq<(Value, Value)>, t2: Seq<(Value, Value)>, c: Seq<char>, d: CharacterInventoryData) -> bool {
    if has_key(t, c) {
        &&& t2.len() == t.len()
        &&& forall|k: int|
            #[trigger] first_key(t, c, k) ==> {
                &&& t2[k].0 == t[k].0
                &&& represents(t2[k].1, d)
                &&& table_form(t2[k].1, d)
                &&& forall|j: int| 0 <= j < t.len() && j != k ==> #[trigger] t2[j] == t[j]
            }
    } else {
        &&& t2.len() == t.len() + 1
        &&& forall|j: int| 0 <= j < t.len() ==> #[trigger] t2[j] == t[j]
        &&& is_text(t2[t.len() as int].0, c)
        &&& represents(t2[t.len() as int].1, d)
        &&& table_form(t2[t.len() as int].1, d)
    }
}

/// Sets the character `c` of a realm table to the table form of `d`,
/// overwriting its slot or adding one.
pub fn put_character(t: &mut Vec<(Value, Value)>, c: &String, d: &CharacterInventoryData)
    ensures
        put_post(old(t)@, final(t)@, c@, *d),
{
    let v = d.to_value();
    match find_text_key(t, c.as_str()) {
        Some(k) => {
            let mut slot = (Value::Nil, Value::Nil);
            t.set_and_swap(k, &mut slot);
            let key = slot.0;
            t.set(k, (key, v));
            proof {
                assert forall|k2: int| #[trigger] first_key(old(t)@, c@, k2) implies k2 == k by {
                    lemma_first_key_unique(old(t)@, c@, k2, k as int);
                }
            }
        },
        None => {
            t.push((Value::Text(c.clone()), v));
        },
    }
}

/// Two tables with the same slots for the key `c` look it up alike.
pub proof fn lemma_field_same(t1: Seq<(Value, Value)>, t2: Seq<(Value, Value)>, c: Seq<char>)
    requires
        forall|j: int| #![trigger key_at(t1, j, c)] #![trigger key_at(t2, j, c)] key_at(t1, j, c) <==> key_at(t2, j, c),
        forall|j: int| key_at(t1, j, c) ==> #[trigger] t1[j].1 == t2[j].1,
    ensures
        field(t1, c) == field(t2, c),
{
    if has_key(t1, c) {
        let w = choose|w: int| key_at(t1, w, c);
        lemma_first_key_exists(t1, c, w);
        let i = choose|i: int| first_key(t1, c, i);
        assert(first_key(t2, c, i));
        lemma_field_at(t1, c, i);
        lemma_field_at(t2, c, i);
    } else {
        assert(!has_key(t2, c));
    }
}

/// Merging no set leaves a table as it is.
pub proof fn lemma_table_post_none(t: Seq<(Value, Value)>, r: Seq<char>, sets: Seq<InventorySet>)
    ensures
        table_post(t, t, r, sets, 0),
{
}

/// A set for another realm changes nothing in the table of realm `r`.
pub proof fn lemma_table_post_other(
    t: Seq<(Value, Value)>,
    tb: Seq<(Value, Value)>,
    r: Seq<char>,
    sets: Seq<InventorySet>,
    n: int,
)
    requires
        0 <= n < sets.len(),
        table_post(t, tb, r, sets, n),
        sets[n].realm_name@ != r,
    ensures
        table_post(t, tb, r, sets, n + 1),
{
    assert forall|c: Seq<char>| #[trigger] targets(sets, n + 1, r, c) implies targets(sets, n, r, c) by {
        let k = choose|k: int| 0 <= k < n + 1 && (#[trigger] sets[k]).realm_name@ == r && sets[k].character_name@ == c;
        assert(k < n);
    }
    assert forall|j: int| 0 <= j < t.len() && touched(t, j, r, sets, n + 1) implies touched(t, j, r, sets, n) by {
        assert(targets(sets, n + 1, r, t[j].0->Text_0@));
    }
    assert forall|k: int|
        0 <= k < n + 1 && (#[trigger] sets[k]).realm_name@ == r && last_for(sets, n + 1, k) implies (field(
            tb,
            sets[k].character_name@,
        ) matches Some(v) && represents(v, sets[k].character_inventory_data) && table_form(
            v,
            sets[k].character_inventory_data,
        )) by {
        assert(k < n);
        assert(last_for(sets, n, k));
    }
    assert forall|j: int| t.len() <= j < tb.len() implies targets(sets, n + 1, r, (#[trigger] tb[j]).0->Text_0@) by {
        let c = tb[j].0->Text_0@;
        assert(targets(sets, n, r, c));
        let k = choose|k: int| 0 <= k < n && (#[trigger] sets[k]).realm_name@ == r && sets[k].character_name@ == c;
        assert(sets[k].realm_name@ == r);
    }
}

/// Merging set `n`, which is for realm `r`, into the table extends what the
/// first `n` sets did.
pub proof fn lemma_table_post_step(
    t: Seq<(Value, Value)>,
    tb: Seq<(Value, Value)>,
    tc: Seq<(Value, Value)>,
    r: Seq<char>,
    sets: Seq<InventorySet>,
    n: int,
)
    requires
        0 <= n < sets.len(),
        table_post(t, tb, r, sets, n),
        sets[n].realm_name@ == r,
        put_post(tb, tc, sets[n].character_name@, sets[n].character_inventory_data),
    ensures
        table_post(t, tc, r, sets, n + 1),
{
    let c = sets[n].character_name@;
    let d = sets[n].character_inventory_data;
    // the slot that the put wrote, if it overwrote one
    let ghost p: int = if has_key(tb, c) {
        let w = choose|w: int| key_at(tb, w, c);
        lemma_first_key_exists(tb, c, w);
        choose|i: int| first_key(tb, c, i)
    } else {
        tb.len() as int
    };
    assert(forall|j: int| 0 <= j < tc.len() && j != p ==> j < tb.len() && #[trigger] tc[j] == tb[j]);
    assert(key_at(tc, p, c) && represents(tc[p].1, d) && table_form(tc[p].1, d));
    assert forall|cc: Seq<char>| targets(sets, n, r, cc) implies #[trigger] targets(sets, n + 1, r, cc) by {
        let k = choose|k: int| 0 <= k < n && (#[trigger] sets[k]).realm_name@ == r && sets[k].character_name@ == cc;
        assert(sets[k].realm_name@ == r);
    }
    assert(targets(sets, n + 1, r, c)) by {
        assert(sets[n].realm_name@ == r);
    }
    // slots of the old table
    assert forall|j: int| 0 <= j < t.len() implies (#[trigger] tc[j]).0 == t[j].0 && (!touched(
        t,
        j,
        r,
        sets,
        n + 1,
    ) ==> tc[j].1 == t[j].1) by {
        if j == p {
            assert(tc[j].0 == tb[j].0);
            if !touched(t, j, r, sets, n + 1) {
                // the put slot is the first one keyed by `c` in `t` as well
                assert(t[j].0 == tb[j].0);
                assert forall|m: int| 0 <= m < j implies !#[trigger] key_at(t, m, c) by {
                    assert(tb[m].0 == t[m].0);
                    assert(!key_at(tb, m, c));
                }
                assert(first_key(t, c, j));
                assert(touched(t, j, r, sets, n + 1));
            }
        } else {
            if !touched(t, j, r, sets, n + 1) && t[j].0 is Text {
                let cj = t[j].0->Text_0@;
                if first_key(t, cj, j) && targets(sets, n, r, cj) {
                    assert(targets(sets, n + 1, r, cj));
                }
            }
        }
    }
    // slots added
    assert forall|j: int| t.len() <= j < tc.len() implies {
        &&& (#[trigger] tc[j]).0 is Text
        &&& targets(sets, n + 1, r, tc[j].0->Text_0@)
        &&& !has_key(t, tc[j].0->Text_0@)
    } by {
        if j == p && !has_key(tb, c) {
            if has_key(t, c) {
                let w = choose|w: int| key_at(t, w, c);
                assert(tb[w].0 == t[w].0);
                assert(key_at(tb, w, c));
            }
        } else if j == p {
            assert(tc[j].0 == tb[j].0);
            assert(targets(sets, n, r, tb[j].0->Text_0@));
        } else {
            assert(targets(sets, n, r, tb[j].0->Text_0@));
        }
    }
    // added slots have distinct keys
    assert forall|j1: int, j2: int| t.len() <= j1 < j2 < tc.len() implies (#[trigger] tc[j1]).0->Text_0@
        != (#[trigger] tc[j2]).0->Text_0@ by {
        if j2 == p && !has_key(tb, c) {
            assert(tc[j1] == tb[j1]);
            if tb[j1].0->Text_0@ == c {
                assert(key_at(tb, j1, c));
            }
        } else {
            assert(tc[j1].0 == tb[j1].0);
            assert(tc[j2].0 == tb[j2].0);
        }
    }
    // last snapshots
    assert forall|k: int|
        0 <= k < n + 1 && (#[trigger] sets[k]).realm_name@ == r && last_for(sets, n + 1, k) implies (field(
            tc,
            sets[k].character_name@,
        ) matches Some(v) && represents(v, sets[k].character_inventory_data) && table_form(
            v,
            sets[k].character_inventory_data,
        )) by {
        let ck = sets[k].character_name@;
        if k == n {
            assert forall|m: int| 0 <= m < p implies !#[trigger] key_at(tc, m, c) by {
                if has_key(tb, c) {
                    assert(tc[m] == tb[m]);
                    assert(!key_at(tb, m, c));
                } else {
                    assert(tc[m] == tb[m]);
                    assert(!key_at(tb, m, c));
                }
            }
            assert(first_key(tc, c, p));
            lemma_field_at(tc, c, p);
        } else {
            assert(last_for(sets, n, k));
            assert(ck != c) by {
                assert(!(sets[n].realm_name@ == sets[k].realm_name@ && sets[n].character_name@ == ck));
            }
            assert forall|j: int| #![trigger key_at(tb, j, ck)] #![trigger key_at(tc, j, ck)] key_at(tb, j, ck) <==> key_at(tc, j, ck) by {
                if j != p && 0 <= j < tc.len() {
                    assert(tc[j] == tb[j]);
                }
            }
            lemma_field_same(tb, tc, ck);
        }
    }
}

/// Merges the character sets into one realm table, in order.
fn merge_realm(t: &mut Vec<(Value, Value)>, realm: &String, sets: &Vec<InventorySet>)
    ensures
        table_post(old(t)@, final(t)@, realm@, sets@, sets@.len() as int),
{
    let ghost t0 = t@;
    proof {
        lemma_table_post_none(t0, realm@, sets@);
    }
    let mut k: usize = 0;
    while k < sets.len()
        invariant
            k <= sets@.len(),
            t0 == old(t)@,
            table_post(t0, t@, realm@, sets@, k as int),
        decreases sets@.len() - k,
    {
        let s = &sets[k];
        if text_eq(s.realm_name.as_str(), realm.as_str()) {
            let ghost tb = t@;
            put_character(t, &s.character_name, &s.character_inventory_data);
            proof {
                lemma_table_post_step(t0, tb, t@, realm@, sets@, k as int);
            }
        } else {
            proof {
                lemma_table_post_other(t0, t@, realm@, sets@, k as int);
            }
        }
        k = k + 1;
    }
}

/// Whether entry `i` is the first with its key.
fn is_first_realm(es: &Vec<(String, Value)>, i: usize) -> (r: bool)
    requires
        i < es@.len(),
    ensures
        r == first_realm(es@, i as int),
{
    let mut j: usize = 0;
    while j < i
        invariant
            i < es@.len(),
            j <= i,
            forall|m: int| 0 <= m < j ==> (#[trigger] es@[m]).0@ != es@[i as int].0@,
        decreases i - j,
    {
        if text_eq(es[j].0.as_str(), es[i].0.as_str()) {
            return false;
        }
        j = j + 1;
    }
    true
}

/// Merging keeps keys unique.
pub proof fn lemma_update_keeps_unique(es: Seq<(String, Value)>, es2: Seq<(String, Value)>, sets: Seq<InventorySet>)
    requires
        update_post(es, es2, sets),
        keys_unique(es),
    ensures
        keys_unique(es2),
{
    assert forall|a: int, b: int| 0 <= a < b < es2.len() implies (#[trigger] es2[a]).0@ != (#[trigger] es2[b]).0@ by {
        assert(es2[a].0 == es[a].0 && es2[b].0 == es[b].0);
        assert(es[a].0@ != es[b].0@);
    }
    assert forall|a: int, x: int, y: int|
        0 <= a < es2.len() && es2[a].1 is Table && 0 <= x < y < es2[a].1->Table_0@.len() && es2[a].1->Table_0@[x].0 is Text
            && es2[a].1->Table_0@[y].0 is Text implies (#[trigger] es2[a].1->Table_0@[x]).0->Text_0@
        != (#[trigger] es2[a].1->Table_0@[y]).0->Text_0@ by {
        if !(es[a].1 is Table && first_realm(es, a)) {
            assert(es2[a].1 == es[a].1);
            assert(es[a].1->Table_0@[x] == es2[a].1->Table_0@[x]);
        } else {
            let t = es[a].1->Table_0@;
            let t2 = es2[a].1->Table_0@;
            if y < t.len() {
                assert(t2[x].0 == t[x].0 && t2[y].0 == t[y].0);
                assert(t[x].0->Text_0@ != t[y].0->Text_0@);
            } else if x < t.len() {
                assert(t2[x].0 == t[x].0);
                if t[x].0->Text_0@ == t2[y].0->Text_0@ {
                    assert(key_at(t, x, t2[y].0->Text_0@));
                }
            }
        }
    }
}

impl Database {
    /// Merges each snapshot into the realm table of its realm, where this
    /// database has one: the character's slot is overwritten, or added. Sets
    /// for realms that are missing are dropped; nothing else changes.
    pub fn update(&mut self, inventory_setters: &Vec<InventorySet>)
        ensures
            update_post(old(self).entries@, final(self).entries@, inventory_setters@),
            old(self).wf() ==> final(self).wf(),
    {
        let ghost es = self.entries@;
        let ghost sets = inventory_setters@;
        let mut i: usize = 0;
        while i < self.entries.len()
            invariant
                es == old(self).entries@,
                sets == inventory_setters@,
                i <= es.len(),
                self.entries@.len() == es.len(),
                forall|j: int| 0 <= j < es.len() ==> (#[trigger] self.entries@[j]).0 == es[j].0,
                forall|j: int| i <= j < es.len() ==> #[trigger] self.entries@[j] == es[j],
                forall|j: int|
                    0 <= j < i && !(es[j].1 is Table && first_realm(es, j)) ==> (#[trigger] self.entries@[j]).1 == es[j].1,
                forall|j: int|
                    0 <= j < i && es[j].1 is Table && first_realm(es, j) ==> {
                        &&& (#[trigger] self.entries@[j]).1 is Table
                        &&& table_post(es[j].1->Table_0@, self.entries@[j].1->Table_0@, es[j].0@, sets, sets.len() as int)
                    },
            decreases es.len() - i,
        {
            let first = is_first_realm(&self.entries, i);
            proof {
                assert(self.entries@[i as int].0 == es[i as int].0);
                if first {
                    assert forall|m: int| 0 <= m < i implies (#[trigger] es[m]).0@ != es[i as int].0@ by {
                        assert(self.entries@[m].0 == es[m].0);
                    }
                } else {
                    let m = choose|m: int| 0 <= m < i && (#[trigger] self.entries@[m]).0@ == self.entries@[i as int].0@;
                    assert(self.entries@[m].0 == es[m].0);
                }
                assert(first == first_realm(es, i as int));
            }
            let is_table = match &self.entries[i].1 {
                Value::Table(_) => true,
                _ => false,
            };
            if first && is_table {
                let mut entry = (String::new(), Value::Nil);
                self.entries.set_and_swap(i, &mut entry);
                let (name, value) = entry;
                match value {
                    Value::Table(mut t) => {
                        merge_realm(&mut t, &name, inventory_setters);
                        self.entries.set(i, (name, Value::Table(t)));
                    },
                    other => {
                        self.entries.set(i, (name, other));
                    },
                }
            }
            i = i + 1;
        }
        proof {
            if keys_unique(es) {
                lemma_update_keeps_unique(es, self.entries@, sets);
            }
        }
    }
}

/// A character entry whose snapshot could not be read.
pub struct SnapshotDecodeError {
    pub realm_name: String,
    pub character_name: String,
}

/// The saved document for an encoded table: the assignment of the table to
/// the database global.
pub fn db_document(table_text: &str) -> (r: String)
    ensures
        r@ == DB_GLOBAL@ + " = "@ + table_text@,
{
    String::from_str(DB_GLOBAL).concat(" = ").concat(table_text)
}

/// Whether a top-level key holds internal data rather than a realm.
pub fn is_reserved(name: &str) -> (r: bool)
    ensures
        r == is_reserved_name(name@),
{
    let n = name.unicode_len();
    n > 0 && name.get_char(n - 1) == RESERVED_SUFFIX
}

/// Slot `j` of entry `i` is one that `acct` extracts: a character that the
/// account knows, under a realm table whose key is not reserved.
pub open spec fn eligible(acct: Account, es: Seq<(String, Value)>, i: int, j: int) -> bool {
    &&& 0 <= i < es.len()
    &&& !is_reserved_name(es[i].0@)
    &&& es[i].1 is Table
    &&& 0 <= j < es[i].1->Table_0@.len()
    &&& es[i].1->Table_0@[j].0 is Text
    &&& acct.knows(es[i].0@, es[i].1->Table_0@[j].0->Text_0@)
}

pub open spec fn slot(es: Seq<(String, Value)>, i: int, j: int) -> (Value, Value) {
    es[i].1->Table_0@[j]
}

/// Set `k` was read from slot `j` of entry `i`.
pub open spec fn set_from(sets: Seq<InventorySet>, k: int, es: Seq<(String, Value)>, i: int, j: int) -> bool {
    &&& 0 <= k < sets.len()
    &&& sets[k].realm_name@ == es[i].0@
    &&& is_text(slot(es, i, j).0, sets[k].character_name@)
    &&& represents(slot(es, i, j).1, sets[k].character_inventory_data)
}

/// Error `k` names slot `j` of entry `i`, which holds no snapshot.
pub open spec fn error_from(errs: Seq<SnapshotDecodeError>, k: int, es: Seq<(String, Value)>, i: int, j: int) -> bool {
    &&& 0 <= k < errs.len()
    &&& errs[k].realm_name@ == es[i].0@
    &&& is_text(slot(es, i, j).0, errs[k].character_name@)
    &&& forall|d: CharacterInventoryData| !represents(slot(es, i, j).1, d)
}

/// Set `k` was read from a slot before slot `j` of entry `i`.
pub open spec fn set_before(sets: Seq<InventorySet>, k: int, es: Seq<(String, Value)>, i: int, j: int) -> bool {
    exists|a: int, b: int| (a < i || (a == i && b < j)) && 0 <= a && 0 <= b && #[trigger] set_from(sets, k, es, a, b)
}

/// A set read before slot `j` of entry `i` was read before any later slot.
pub proof fn lemma_set_before_mono(sets: Seq<InventorySet>, es: Seq<(String, Value)>, i: int, j: int, i2: int, j2: int)
    requires
        forall|k: int| 0 <= k < sets.len() ==> #[trigger] set_before(sets, k, es, i, j),
        i < i2 || (i == i2 && j <= j2),
    ensures
        forall|k: int| 0 <= k < sets.len() ==> #[trigger] set_before(sets, k, es, i2, j2),
{
    assert forall|k: int| 0 <= k < sets.len() implies #[trigger] set_before(sets, k, es, i2, j2) by {
        assert(set_before(sets, k, es, i, j));
        let (a, b) = choose|a: int, b: int| (a < i || (a == i && b < j)) && 0 <= a && 0 <= b && #[trigger] set_from(sets, k, es, a, b);
        assert(set_from(sets, k, es, a, b));
    }
}

/// No two sets are for the same realm and character.
pub open spec fn sets_distinct(sets: Seq<InventorySet>) -> bool {
    forall|k1: int, k2: int|
        0 <= k1 < k2 < sets.len() ==> !((#[trigger] sets[k1]).realm_name@ == (#[trigger] sets[k2]).realm_name@
            && sets[k1].character_name@ == sets[k2].character_name@)
}

pub open spec fn set_ok(acct: Account, es: Seq<(String, Value)>, sets: Seq<InventorySet>, k: int) -> bool {
    exists|i: int, j: int| eligible(acct, es, i, j) && #[trigger] set_from(sets, k, es, i, j)
}

pub open spec fn error_ok(acct: Account, es: Seq<(String, Value)>, errs: Seq<SnapshotDecodeError>, k: int) -> bool {
    exists|i: int, j: int| eligible(acct, es, i, j) && #[trigger] error_from(errs, k, es, i, j)
}

pub open spec fn covered(sets: Seq<InventorySet>, errs: Seq<SnapshotDecodeError>, es: Seq<(String, Value)>, i: int, j: int) -> bool {
    (exists|k: int| #[trigger] set_from(sets, k, es, i, j)) || (exists|k: int| #[trigger] error_from(errs, k, es, i, j))
}

/// What extraction from `es` by `acct` returns: each set and each error comes
/// from an eligible slot, and each eligible slot gives a set or an error.
pub open spec fn extract_post(acct: Account, es: Seq<(String, Value)>, sets: Seq<InventorySet>, errs: Seq<SnapshotDecodeError>) -> bool {
    &&& forall|k: int| 0 <= k < sets.len() ==> #[trigger] set_ok(acct, es, sets, k)
    &&& forall|k: int| 0 <= k < errs.len() ==> #[trigger] error_ok(acct, es, errs, k)
    &&& forall|i: int, j: int| #[trigger] eligible(acct, es, i, j) ==> covered(sets, errs, es, i, j)
}

impl Account {
    /// The snapshots of this account's known characters in `db`, and an error
    /// for each known character whose entry holds no snapshot. From a
    /// well-formed database, each character gives at most one set.
    pub fn get_inventory_setters(&self, db: &Database) -> (r: (Vec<InventorySet>, Vec<SnapshotDecodeError>))
        ensures
            extract_post(*self, db.entries@, r.0@, r.1@),
            db.wf() ==> sets_distinct(r.0@),
    {
        let ghost es = db.entries@;
        let mut sets: Vec<InventorySet> = Vec::new();
        let mut errs: Vec<SnapshotDecodeError> = Vec::new();
        let mut i: usize = 0;
        while i < db.entries.len()
            invariant
                es == db.entries@,
                i <= es.len(),
                forall|k: int| 0 <= k < sets@.len() ==> #[trigger] set_ok(*self, es, sets@, k),
                forall|k: int| 0 <= k < errs@.len() ==> #[trigger] error_ok(*self, es, errs@, k),
                forall|a: int, b: int| 0 <= a < i && #[trigger] eligible(*self, es, a, b) ==> covered(sets@, errs@, es, a, b),
                forall|k: int| 0 <= k < sets@.len() ==> #[trigger] set_before(sets@, k, es, i as int, 0),
                keys_unique(es) ==> sets_distinct(sets@),
            decreases es.len() - i,
        {
            let name = &db.entries[i].0;
            if !is_reserved(name.as_str()) {
                match &db.entries[i].1 {
                    Value::Table(t) => {
                        let mut j: usize = 0;
                        while j < t.len()
                            invariant
                                es == db.entries@,
                                i < es.len(),
                                *name == es[i as int].0,
                                es[i as int].1 == Value::Table(*t),
                                !is_reserved_name(name@),
                                j <= t@.len(),
                                forall|k: int| 0 <= k < sets@.len() ==> #[trigger] set_ok(*self, es, sets@, k),
                                forall|k: int| 0 <= k < errs@.len() ==> #[trigger] error_ok(*self, es, errs@, k),
                                forall|a: int, b: int| 0 <= a < i && #[trigger] eligible(*self, es, a, b) ==> covered(sets@, errs@, es, a, b),
                                forall|b: int| 0 <= b < j && #[trigger] eligible(*self, es, i as int, b) ==> covered(sets@, errs@, es, i as int, b),
                                forall|k: int| 0 <= k < sets@.len() ==> #[trigger] set_before(sets@, k, es, i as int, j as int),
                                keys_unique(es) ==> sets_distinct(sets@),
                            decreases t@.len() - j,
                        {
                            let ghost s_start = sets@;
                            match &t[j].0 {
                                Value::Text(c) => {
                                    if self.knows_character(name.as_str(), c.as_str()) {
                                        let ghost s0 = sets@;
                                        let ghost e0 = errs@;
                                        match CharacterInventoryData::from_value(&t[j].1) {
                                            Some(d) => {
                                                sets.push(InventorySet {
                                                    realm_name: name.clone(),
                                                    character_name: c.clone(),
                                                    character_inventory_data: d,
                                                });
                                                proof {
                                                    assert(set_from(sets@, s0.len() as int, es, i as int, j as int));
                                                    assert forall|k: int| 0 <= k < sets@.len() implies #[trigger] set_before(sets@, k, es, i as int, (j + 1) as int) by {
                                                        if k < s0.len() {
                                                            assert(set_before(s0, k, es, i as int, j as int));
                                                            let (a, b) = choose|a: int, b: int| (a < i || (a == i && b < j)) && 0 <= a && 0 <= b && #[trigger] set_from(s0, k, es, a, b);
                                                            assert(sets@[k] == s0[k]);
                                                            assert(set_from(sets@, k, es, a, b));
                                                        } else {
                                                            assert(set_from(sets@, k, es, i as int, j as int));
                                                        }
                                                    }
                                                    if keys_unique(es) {
                                                        assert forall|k1: int, k2: int| 0 <= k1 < k2 < sets@.len() implies !((#[trigger] sets@[k1]).realm_name@ == (#[trigger] sets@[k2]).realm_name@
                                                            && sets@[k1].character_name@ == sets@[k2].character_name@) by {
                                                            if k2 < s0.len() {
                                                                assert(sets@[k1] == s0[k1] && sets@[k2] == s0[k2]);
                                                            } else {
                                                                assert(set_before(s0, k1, es, i as int, j as int));
                                                                let (a, b) = choose|a: int, b: int| (a < i || (a == i && b < j)) && 0 <= a && 0 <= b && #[trigger] set_from(s0, k1, es, a, b);
                                                                assert(sets@[k1] == s0[k1]);
                                                                if a < i {
                                                                    assert(es[a].0@ != es[i as int].0@);
                                                                } else {
                                                                    assert(es[i as int].1->Table_0@[b].0->Text_0@ != es[i as int].1->Table_0@[j as int].0->Text_0@);
                                                                }
                                                            }
                                                        }
                                                    }
                                                    assert forall|k: int| 0 <= k < s0.len() && #[trigger] set_from(s0, k, es, i as int, j as int) implies set_from(sets@, k, es, i as int, j as int) by {
                                                        assert(sets@[k] == s0[k]);
                                                    }
                                                }
                                            },
                                            None => {
                                                errs.push(SnapshotDecodeError {
                                                    realm_name: name.clone(),
                                                    character_name: c.clone(),
                                                });
                                                proof {
                                                    assert(error_from(errs@, e0.len() as int, es, i as int, j as int));
                                                }
                                            },
                                        }
                                        proof {
                                            assert forall|k: int| 0 <= k < sets@.len() implies #[trigger] set_ok(*self, es, sets@, k) by {
                                                if k < s0.len() {
                                                    assert(set_ok(*self, es, s0, k));
                                                    let (a, b) = choose|a: int, b: int| eligible(*self, es, a, b) && #[trigger] set_from(s0, k, es, a, b);
                                                    assert(sets@[k] == s0[k]);
                                                    assert(set_from(sets@, k, es, a, b));
                                                } else {
                                                    assert(eligible(*self, es, i as int, j as int));
                                                    assert(set_from(sets@, k, es, i as int, j as int));
                                                }
                                            }
                                            assert forall|k: int| 0 <= k < errs@.len() implies #[trigger] error_ok(*self, es, errs@, k) by {
                                                if k < e0.len() {
                                                    assert(error_ok(*self, es, e0, k));
                                                    let (a, b) = choose|a: int, b: int| eligible(*self, es, a, b) && #[trigger] error_from(e0, k, es, a, b);
                                                    assert(errs@[k] == e0[k]);
                                                    assert(error_from(errs@, k, es, a, b));
                                                } else {
                                                    assert(eligible(*self, es, i as int, j as int));
                                                    assert(error_from(errs@, k, es, i as int, j as int));
                                                }
                                            }
                                            assert forall|a: int, b: int| covered(s0, e0, es, a, b) implies #[trigger] covered(sets@, errs@, es, a, b) by {
                                                if exists|k: int| #[trigger] set_from(s0, k, es, a, b) {
                                                    let k = choose|k: int| #[trigger] set_from(s0, k, es, a, b);
                                                    assert(sets@[k] == s0[k]);
                                                    assert(set_from(sets@, k, es, a, b));
                                                } else {
                                                    let k = choose|k: int| #[trigger] error_from(e0, k, es, a, b);
                                                    assert(errs@[k] == e0[k]);
                                                    assert(error_from(errs@, k, es, a, b));
                                                }
                                            }
                                        }
                                    }
                                },
                                _ => {},
                            }
                            proof {
                                if sets@.len() == s_start.len() {
                                    lemma_set_before_mono(sets@, es, i as int, j as int, i as int, j + 1);
                                }
                            }
                            j = j + 1;
                        }
                        proof {
                            lemma_set_before_mono(sets@, es, i as int, j as int, i + 1, 0);
                        }
                    },
                    _ => {
                        proof {
                            lemma_set_before_mono(sets@, es, i as int, 0, i + 1, 0);
                        }
                    },
                }
            } else {
                proof {
                    lemma_set_before_mono(sets@, es, i as int, 0, i + 1, 0);
                }
            }
            i = i + 1;
        }
        (sets, errs)
    }
}

} // verus!
