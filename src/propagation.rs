use vstd::prelude::*;
use crate::value::{Value, field, first_key, has_key, key_at, lemma_field_at};
use crate::inventory::{CharacterInventoryData, InventorySet, represents, table_form};
use crate::topology::Account;
use crate::database::{
    eligible, extract_post, first_realm, is_reserved_name, last_for, set_from, set_ok,
    targets, touched, update_post,
};

verus! {

/// Two values hold the same content.
pub open spec fn same_value(v1: Value, v2: Value) -> bool {
    v1 == v2 || (v1 is Table && v2 is Table && v1->Table_0@ == v2->Table_0@)
}

/// Two databases hold the same document: the same keys in the same order,
/// the same values, and where a character slot differs, both slots hold the
/// one table form of the same snapshot, so that both encode alike.
pub open spec fn same_document(es1: Seq<(String, Value)>, es2: Seq<(String, Value)>) -> bool {
    &&& es1.len() == es2.len()
    &&& forall|i: int| 0 <= i < es1.len() ==> (#[trigger] es2[i]).0 == es1[i].0
    &&& forall|i: int| 0 <= i < es1.len() && !(es1[i].1 is Table) ==> (#[trigger] es2[i]).1 == es1[i].1
    &&& forall|i: int|
        0 <= i < es1.len() && es1[i].1 is Table ==> {
            let t1 = es1[i].1->Table_0@;
            let t2 = (#[trigger] es2[i]).1->Table_0@;
            &&& es2[i].1 is Table
            &&& t2.len() == t1.len()
            &&& forall|j: int|
                0 <= j < t1.len() ==> (#[trigger] t2[j]).0 == t1[j].0 && (t2[j].1 == t1[j].1 || exists|
                    d: CharacterInventoryData,
                | table_form(t1[j].1, d) && #[trigger] table_form(t2[j].1, d))
        }
}

/// Among sets for one realm and character, a last one exists.
pub proof fn lemma_last_exists(sets: Seq<InventorySet>, n: int, k: int)
    requires
        0 <= k < n <= sets.len(),
    ensures
        exists|m: int|
            0 <= m < n && (#[trigger] sets[m]).realm_name@ == sets[k].realm_name@
                && sets[m].character_name@ == sets[k].character_name@ && last_for(sets, n, m),
    decreases n - k,
{
    if exists|m: int|
        k < m < n && (#[trigger] sets[m]).realm_name@ == sets[k].realm_name@
            && sets[m].character_name@ == sets[k].character_name@ {
        let m = choose|m: int|
            k < m < n && (#[trigger] sets[m]).realm_name@ == sets[k].realm_name@
                && sets[m].character_name@ == sets[k].character_name@;
        lemma_last_exists(sets, n, m);
    } else {
        assert(last_for(sets, n, k));
    }
}

/// After a propagation from account `a` into a database, the entry of each
/// character that `a` extracted holds exactly `a`'s snapshot of it, wherever
/// the target already has a table for that realm.
pub proof fn lemma_merge_overwrite(
    a: Account,
    a_es: Seq<(String, Value)>,
    sets: Seq<InventorySet>,
    errs: Seq<crate::database::SnapshotDecodeError>,
    b_es: Seq<(String, Value)>,
    b_es2: Seq<(String, Value)>,
    k: int,
    i: int,
)
    requires
        extract_post(a, a_es, sets, errs),
        update_post(b_es, b_es2, sets),
        0 <= k < sets.len(),
        last_for(sets, sets.len() as int, k),
        first_realm(b_es, i),
        b_es[i].0@ == sets[k].realm_name@,
        b_es[i].1 is Table,
    ensures
        exists|ai: int, aj: int| eligible(a, a_es, ai, aj) && set_from(sets, k, a_es, ai, aj),
        b_es2[i].1 is Table,
        field(b_es2[i].1->Table_0@, sets[k].character_name@) matches Some(v) && represents(
            v,
            sets[k].character_inventory_data,
        ) && table_form(v, sets[k].character_inventory_data),
{
    assert(set_ok(a, a_es, sets, k));
    assert(b_es2[i].1 is Table);
}

/// A propagation from account `a` changes nothing but the slots of the
/// characters that `a` extracted: reserved entries, other realms and other
/// characters keep their content.
pub proof fn lemma_merge_non_destructive(
    a: Account,
    a_es: Seq<(String, Value)>,
    sets: Seq<InventorySet>,
    errs: Seq<crate::database::SnapshotDecodeError>,
    b_es: Seq<(String, Value)>,
    b_es2: Seq<(String, Value)>,
)
    requires
        extract_post(a, a_es, sets, errs),
        update_post(b_es, b_es2, sets),
    ensures
        b_es2.len() == b_es.len(),
        forall|i: int|
            0 <= i < b_es.len() && is_reserved_name(b_es[i].0@) ==> (#[trigger] b_es2[i]).0 == b_es[i].0
                && same_value(b_es[i].1, b_es2[i].1),
        forall|i: int|
            0 <= i < b_es.len() && (forall|k: int| 0 <= k < sets.len() ==> (#[trigger] sets[k]).realm_name@ != b_es[i].0@)
                ==> (#[trigger] b_es2[i]).0 == b_es[i].0 && same_value(b_es[i].1, b_es2[i].1),
        forall|i: int, j: int|
            0 <= i < b_es.len() && b_es[i].1 is Table && 0 <= j < b_es[i].1->Table_0@.len()
                && !touched(b_es[i].1->Table_0@, j, b_es[i].0@, sets, sets.len() as int) ==> {
                &&& b_es2[i].1 is Table
                &&& #[trigger] b_es2[i].1->Table_0@[j] == b_es[i].1->Table_0@[j]
            },
{
    let n = sets.len() as int;
    assert forall|i: int|
        0 <= i < b_es.len() && (forall|k: int| 0 <= k < sets.len() ==> (#[trigger] sets[k]).realm_name@ != b_es[i].0@)
            implies (#[trigger] b_es2[i]).0 == b_es[i].0 && same_value(b_es[i].1, b_es2[i].1) by {
        if b_es[i].1 is Table && first_realm(b_es, i) {
            let t = b_es[i].1->Table_0@;
            let t2 = b_es2[i].1->Table_0@;
            let r = b_es[i].0@;
            assert forall|c: Seq<char>| !#[trigger] targets(sets, n, r, c) by {
                if targets(sets, n, r, c) {
                    let k = choose|k: int| 0 <= k < n && (#[trigger] sets[k]).realm_name@ == r && sets[k].character_name@ == c;
                }
            }
            if t2.len() > t.len() {
                assert(targets(sets, n, r, t2[t.len() as int].0->Text_0@));
            }
            assert(t2 =~= t);
        }
    }
    assert forall|i: int|
        0 <= i < b_es.len() && is_reserved_name(b_es[i].0@) implies (#[trigger] b_es2[i]).0 == b_es[i].0
            && same_value(b_es[i].1, b_es2[i].1) by {
        assert forall|k: int| 0 <= k < sets.len() implies (#[trigger] sets[k]).realm_name@ != b_es[i].0@ by {
            assert(set_ok(a, a_es, sets, k));
        }
    }
    assert forall|i: int, j: int|
        0 <= i < b_es.len() && b_es[i].1 is Table && 0 <= j < b_es[i].1->Table_0@.len()
            && !touched(b_es[i].1->Table_0@, j, b_es[i].0@, sets, sets.len() as int) implies {
            &&& b_es2[i].1 is Table
            &&& #[trigger] b_es2[i].1->Table_0@[j] == b_es[i].1->Table_0@[j]
        } by {
        if !first_realm(b_es, i) {
            assert(b_es2[i].1 == b_es[i].1);
        } else {
            let t2 = b_es2[i].1->Table_0@;
            assert(t2[j].0 == b_es[i].1->Table_0@[j].0);
        }
    }
}

/// Only characters that account `a` knew at startup are extracted from it, and
/// a propagation from it writes no other character's slot.
pub proof fn lemma_topology_scoping(
    a: Account,
    a_es: Seq<(String, Value)>,
    sets: Seq<InventorySet>,
    errs: Seq<crate::database::SnapshotDecodeError>,
    b_es: Seq<(String, Value)>,
    b_es2: Seq<(String, Value)>,
)
    requires
        extract_post(a, a_es, sets, errs),
        update_post(b_es, b_es2, sets),
    ensures
        forall|k: int| 0 <= k < sets.len() ==> a.knows((#[trigger] sets[k]).realm_name@, sets[k].character_name@),
        forall|i: int, j: int|
            0 <= i < b_es.len() && b_es[i].1 is Table && first_realm(b_es, i) && 0 <= j < b_es2[i].1->Table_0@.len()
                && !(j < b_es[i].1->Table_0@.len() && #[trigger] b_es2[i].1->Table_0@[j] == b_es[i].1->Table_0@[j]) ==> {
                &&& b_es2[i].1->Table_0@[j].0 is Text
                &&& a.knows(b_es[i].0@, b_es2[i].1->Table_0@[j].0->Text_0@)
            },
{
    let n = sets.len() as int;
    assert forall|k: int| 0 <= k < sets.len() implies a.knows((#[trigger] sets[k]).realm_name@, sets[k].character_name@) by {
        assert(set_ok(a, a_es, sets, k));
        let (ai, aj) = choose|ai: int, aj: int| eligible(a, a_es, ai, aj) && #[trigger] set_from(sets, k, a_es, ai, aj);
    }
    assert forall|i: int, j: int|
        0 <= i < b_es.len() && b_es[i].1 is Table && first_realm(b_es, i) && 0 <= j < b_es2[i].1->Table_0@.len()
            && !(j < b_es[i].1->Table_0@.len() && #[trigger] b_es2[i].1->Table_0@[j] == b_es[i].1->Table_0@[j]) implies {
            &&& b_es2[i].1->Table_0@[j].0 is Text
            &&& a.knows(b_es[i].0@, b_es2[i].1->Table_0@[j].0->Text_0@)
        } by {
        let t = b_es[i].1->Table_0@;
        let t2 = b_es2[i].1->Table_0@;
        let r = b_es[i].0@;
        let c = t2[j].0->Text_0@;
        if j < t.len() {
            assert(touched(t, j, r, sets, n));
        }
        assert(targets(sets, n, r, c));
        let k = choose|k: int| 0 <= k < n && (#[trigger] sets[k]).realm_name@ == r && sets[k].character_name@ == c;
        assert(a.knows(sets[k].realm_name@, sets[k].character_name@));
    }
}

/// Merging the same sets a second time gives the same document again.
pub proof fn lemma_update_idempotent(
    es: Seq<(String, Value)>,
    es1: Seq<(String, Value)>,
    es2: Seq<(String, Value)>,
    sets: Seq<InventorySet>,
)
    requires
        update_post(es, es1, sets),
        update_post(es1, es2, sets),
    ensures
        same_document(es1, es2),
{
    let n = sets.len() as int;
    assert forall|i: int| 0 <= i < es.len() implies first_realm(es, i) == first_realm(es1, i) by {
        if first_realm(es, i) {
            assert forall|m: int| 0 <= m < i implies (#[trigger] es1[m]).0@ != es1[i].0@ by {
                assert(es1[m].0 == es[m].0);
            }
        }
        if first_realm(es1, i) {
            assert forall|m: int| 0 <= m < i implies (#[trigger] es[m]).0@ != es[i].0@ by {
                assert(es1[m].0 == es[m].0);
            }
        }
    }
    assert forall|i: int| 0 <= i < es1.len() && es1[i].1 is Table implies {
        let t1 = es1[i].1->Table_0@;
        let t2 = (#[trigger] es2[i]).1->Table_0@;
        &&& es2[i].1 is Table
        &&& t2.len() == t1.len()
        &&& forall|j: int|
            0 <= j < t1.len() ==> (#[trigger] t2[j]).0 == t1[j].0 && (t2[j].1 == t1[j].1 || exists|
                d: CharacterInventoryData,
            | table_form(t1[j].1, d) && #[trigger] table_form(t2[j].1, d))
    } by {
        assert(first_realm(es, i) == first_realm(es1, i));
        if !(es[i].1 is Table && first_realm(es, i)) {
            assert(es1[i].1 == es[i].1);
            assert(es2[i].1 == es1[i].1);
        } else {
            let r = es[i].0@;
            let t1 = es1[i].1->Table_0@;
            let t2 = es2[i].1->Table_0@;
            assert(es1[i].0@ == r);
            // every targeted character already has a slot in `t1`
            assert forall|c: Seq<char>| #[trigger] targets(sets, n, r, c) implies has_key(t1, c) && (exists|k: int|
                0 <= k < n && (#[trigger] sets[k]).realm_name@ == r && sets[k].character_name@ == c && last_for(sets, n, k)) by {
                let k0 = choose|k: int| 0 <= k < n && (#[trigger] sets[k]).realm_name@ == r && sets[k].character_name@ == c;
                lemma_last_exists(sets, n, k0);
                let k = choose|m: int|
                    0 <= m < n && (#[trigger] sets[m]).realm_name@ == sets[k0].realm_name@
                        && sets[m].character_name@ == sets[k0].character_name@ && last_for(sets, n, m);
                assert(field(t1, c) is Some);
            }
            if t2.len() > t1.len() {
                assert(targets(sets, n, r, t2[t1.len() as int].0->Text_0@));
            }
            assert forall|j: int| 0 <= j < t1.len() implies (#[trigger] t2[j]).0 == t1[j].0 && (t2[j].1 == t1[j].1
                || exists|d: CharacterInventoryData| table_form(t1[j].1, d) && #[trigger] table_form(t2[j].1, d)) by {
                if touched(t1, j, r, sets, n) {
                    let c = t1[j].0->Text_0@;
                    let k = choose|k: int|
                        0 <= k < n && (#[trigger] sets[k]).realm_name@ == r && sets[k].character_name@ == c && last_for(sets, n, k);
                    lemma_field_at(t1, c, j);
                    assert forall|m: int| 0 <= m < j implies !#[trigger] key_at(t2, m, c) by {
                        assert(t2[m].0 == t1[m].0);
                        assert(!key_at(t1, m, c));
                    }
                    assert(first_key(t2, c, j));
                    lemma_field_at(t2, c, j);
                    assert(table_form(t1[j].1, sets[k].character_inventory_data));
                    assert(table_form(t2[j].1, sets[k].character_inventory_data));
                }
            }
        }
    }
}

} // verus!
