use vstd::prelude::*;
use crate::value::{Value, field, get_field, is_text, lemma_field_push, text_entry};

verus! {

/// One character's inventory snapshot.
pub struct CharacterInventoryData {
    /// Bag id and the item encodings in it.
    pub bag: Vec<(String, Vec<String>)>,
    pub mailbox: Option<Vec<String>>,
    pub equip: Vec<String>,
    /// Bank tab id and the item encodings in it.
    pub bank: Option<Vec<(i32, Vec<String>)>>,
    pub money: u64,
    pub guild: Option<String>,
    pub faction: String,
    pub race: String,
    pub class: String,
    pub gender: i32,
}

/// A snapshot together with the realm and character it belongs to.
pub struct InventorySet {
    pub realm_name: String,
    pub character_name: String,
    pub character_inventory_data: CharacterInventoryData,
}

/// `v` is the sequence table of `items`: keys 1, 2, ... in order.
pub open spec fn is_list(v: Value, items: Seq<String>) -> bool {
    &&& v is Table
    &&& v->Table_0@.len() == items.len()
    &&& forall|i: int|
        0 <= i < items.len() ==> #[trigger] v->Table_0@[i] == (
        Value::Integer((i + 1) as i128),
        Value::Text(items[i]),
    )
}

/// `v` is a table of text keys, each mapped to the list of items of `groups`.
pub open spec fn is_text_groups(v: Value, groups: Seq<(String, Vec<String>)>) -> bool {
    &&& v is Table
    &&& v->Table_0@.len() == groups.len()
    &&& forall|i: int|
        0 <= i < groups.len() ==> {
            &&& (#[trigger] v->Table_0@[i]).0 == Value::Text(groups[i].0)
            &&& is_list(v->Table_0@[i].1, groups[i].1@)
        }
}

/// `v` is a table of integer keys, each mapped to the list of items of `groups`.
pub open spec fn is_int_groups(v: Value, groups: Seq<(i32, Vec<String>)>) -> bool {
    &&& v is Table
    &&& v->Table_0@.len() == groups.len()
    &&& forall|i: int|
        0 <= i < groups.len() ==> {
            &&& (#[trigger] v->Table_0@[i]).0 == Value::Integer(groups[i].0 as i128)
            &&& is_list(v->Table_0@[i].1, groups[i].1@)
        }
}

/// An optional field: absent or nil for `None`.
pub open spec fn is_absent(f: Option<Value>) -> bool {
    f is None || f == Some(Value::Nil)
}

/// `v` is the table form of the snapshot `d`, as the saved database holds it.
pub open spec fn represents(v: Value, d: CharacterInventoryData) -> bool {
    v is Table && {
        let t = v->Table_0@;
        &&& field(t, "bag"@) matches Some(b) && is_text_groups(b, d.bag@)
        &&& match d.mailbox {
            None => is_absent(field(t, "mailbox"@)),
            Some(m) => field(t, "mailbox"@) matches Some(x) && is_list(x, m@),
        }
        &&& field(t, "equip"@) matches Some(e) && is_list(e, d.equip@)
        &&& match d.bank {
            None => is_absent(field(t, "bank"@)),
            Some(k) => field(t, "bank"@) matches Some(x) && is_int_groups(x, k@),
        }
        &&& field(t, "money"@) == Some(Value::Integer(d.money as i128))
        &&& match d.guild {
            None => is_absent(field(t, "guild"@)),
            Some(g) => field(t, "guild"@) == Some(Value::Text(g)),
        }
        &&& field(t, "faction"@) == Some(Value::Text(d.faction))
        &&& field(t, "race"@) == Some(Value::Text(d.race))
        &&& field(t, "class"@) == Some(Value::Text(d.class))
        &&& field(t, "gender"@) == Some(Value::Integer(d.gender as i128))
    }
}

/// `v` is the one table form that `to_value` writes for `d`: the ten fields
/// in a fixed order, each keyed by its name, a left-out optional field as nil.
pub open spec fn table_form(v: Value, d: CharacterInventoryData) -> bool {
    v is Table && {
        let t = v->Table_0@;
        &&& t.len() == 10
        &&& is_text(t[0].0, "bag"@) && is_text_groups(t[0].1, d.bag@)
        &&& is_text(t[1].0, "mailbox"@) && match d.mailbox {
            None => t[1].1 == Value::Nil,
            Some(m) => is_list(t[1].1, m@),
        }
        &&& is_text(t[2].0, "equip"@) && is_list(t[2].1, d.equip@)
        &&& is_text(t[3].0, "bank"@) && match d.bank {
            None => t[3].1 == Value::Nil,
            Some(b) => is_int_groups(t[3].1, b@),
        }
        &&& is_text(t[4].0, "money"@) && t[4].1 == Value::Integer(d.money as i128)
        &&& is_text(t[5].0, "guild"@) && match d.guild {
            None => t[5].1 == Value::Nil,
            Some(g) => t[5].1 == Value::Text(g),
        }
        &&& is_text(t[6].0, "faction"@) && t[6].1 == Value::Text(d.faction)
        &&& is_text(t[7].0, "race"@) && t[7].1 == Value::Text(d.race)
        &&& is_text(t[8].0, "class"@) && t[8].1 == Value::Text(d.class)
        &&& is_text(t[9].0, "gender"@) && t[9].1 == Value::Integer(d.gender as i128)
    }
}

/// Reads a sequence table of texts.
pub fn list_from_value(v: &Value) -> (r: Option<Vec<String>>)
    ensures
        match r {
            Some(items) => is_list(*v, items@),
            None => forall|items: Seq<String>| !is_list(*v, items),
        },
{
    let t = match v {
        Value::Table(t) => t,
        _ => return None,
    };
    assert(v->Table_0 == *t);
    let mut items: Vec<String> = Vec::new();
    let mut i: usize = 0;
    while i < t.len()
        invariant
            v->Table_0 == *t,
            i <= t@.len(),
            items@.len() == i,
            forall|j: int|
                0 <= j < i ==> #[trigger] t@[j] == (Value::Integer((j + 1) as i128), Value::Text(items@[j])),
        decreases t@.len() - i,
    {
        let pushed = match &t[i] {
            (Value::Integer(k), Value::Text(s)) => {
                if *k == i as i128 + 1 {
                    items.push(s.clone());
                    true
                } else {
                    false
                }
            },
            _ => false,
        };
        if !pushed {
            assert forall|l: Seq<String>| !is_list(*v, l) by {
                if is_list(*v, l) {
                    assert(t@[i as int] == (Value::Integer((i + 1) as i128), Value::Text(l[i as int])));
                }
            }
            return None;
        }
        i = i + 1;
    }
    Some(items)
}

/// Builds the sequence table of `items`.
pub fn list_to_value(items: &Vec<String>) -> (r: Value)
    ensures
        is_list(r, items@),
{
    let mut t: Vec<(Value, Value)> = Vec::new();
    let mut i: usize = 0;
    while i < items.len()
        invariant
            i <= items@.len(),
            t@.len() == i,
            forall|j: int|
                0 <= j < i ==> #[trigger] t@[j] == (Value::Integer((j + 1) as i128), Value::Text(items@[j])),
        decreases items@.len() - i,
    {
        t.push((Value::Integer(i as i128 + 1), Value::Text(items[i].clone())));
        i = i + 1;
    }
    Value::Table(t)
}

/// Reads a table of text keys, each mapped to a sequence table of texts.
pub fn text_groups_from_value(v: &Value) -> (r: Option<Vec<(String, Vec<String>)>>)
    ensures
        match r {
            Some(g) => is_text_groups(*v, g@),
            None => forall|g: Seq<(String, Vec<String>)>| !is_text_groups(*v, g),
        },
{
    let t = match v {
        Value::Table(t) => t,
        _ => return None,
    };
    let mut groups: Vec<(String, Vec<String>)> = Vec::new();
    let mut i: usize = 0;
    while i < t.len()
        invariant
            v->Table_0 == *t,
            i <= t@.len(),
            groups@.len() == i,
            forall|j: int|
                0 <= j < i ==> {
                    &&& (#[trigger] t@[j]).0 == Value::Text(groups@[j].0)
                    &&& is_list(t@[j].1, groups@[j].1@)
                },
        decreases t@.len() - i,
    {
        let key = match &t[i].0 {
            Value::Text(s) => s.clone(),
            _ => {
                assert forall|g: Seq<(String, Vec<String>)>| !is_text_groups(*v, g) by {
                    if is_text_groups(*v, g) {
                        assert(t@[i as int].0 == Value::Text(g[i as int].0));
                    }
                }
                return None;
            },
        };
        match list_from_value(&t[i].1) {
            Some(items) => {
                groups.push((key, items));
            },
            None => {
                assert forall|g: Seq<(String, Vec<String>)>| !is_text_groups(*v, g) by {
                    if is_text_groups(*v, g) {
                        assert(is_list(t@[i as int].1, g[i as int].1@));
                    }
                }
                return None;
            },
        }
        i = i + 1;
    }
    Some(groups)
}

/// Reads a table of integer keys, each mapped to a sequence table of texts.
pub fn int_groups_from_value(v: &Value) -> (r: Option<Vec<(i32, Vec<String>)>>)
    ensures
        match r {
            Some(g) => is_int_groups(*v, g@),
            None => forall|g: Seq<(i32, Vec<String>)>| !is_int_groups(*v, g),
        },
{
    let t = match v {
        Value::Table(t) => t,
        _ => return None,
    };
    let mut groups: Vec<(i32, Vec<String>)> = Vec::new();
    let mut i: usize = 0;
    while i < t.len()
        invariant
            v->Table_0 == *t,
            i <= t@.len(),
            groups@.len() == i,
            forall|j: int|
                0 <= j < i ==> {
                    &&& (#[trigger] t@[j]).0 == Value::Integer(groups@[j].0 as i128)
                    &&& is_list(t@[j].1, groups@[j].1@)
                },
        decreases t@.len() - i,
    {
        let key: i32 = match &t[i].0 {
            Value::Integer(k) if i32::MIN as i128 <= *k && *k <= i32::MAX as i128 => *k as i32,
            _ => {
                assert forall|g: Seq<(i32, Vec<String>)>| !is_int_groups(*v, g) by {
                    if is_int_groups(*v, g) {
                        assert(t@[i as int].0 == Value::Integer(g[i as int].0 as i128));
                    }
                }
                return None;
            },
        };
        match list_from_value(&t[i].1) {
            Some(items) => {
                groups.push((key, items));
            },
            None => {
                assert forall|g: Seq<(i32, Vec<String>)>| !is_int_groups(*v, g) by {
                    if is_int_groups(*v, g) {
                        assert(is_list(t@[i as int].1, g[i as int].1@));
                    }
                }
                return None;
            },
        }
        i = i + 1;
    }
    Some(groups)
}

/// Builds the table of text keys for `groups`.
pub fn text_groups_to_value(groups: &Vec<(String, Vec<String>)>) -> (r: Value)
    ensures
        is_text_groups(r, groups@),
{
    let mut t: Vec<(Value, Value)> = Vec::new();
    let mut i: usize = 0;
    while i < groups.len()
        invariant
            i <= groups@.len(),
            t@.len() == i,
            forall|j: int|
                0 <= j < i ==> {
                    &&& (#[trigger] t@[j]).0 == Value::Text(groups@[j].0)
                    &&& is_list(t@[j].1, groups@[j].1@)
                },
        decreases groups@.len() - i,
    {
        t.push((Value::Text(groups[i].0.clone()), list_to_value(&groups[i].1)));
        i = i + 1;
    }
    Value::Table(t)
}

/// Builds the table of integer keys for `groups`.
pub fn int_groups_to_value(groups: &Vec<(i32, Vec<String>)>) -> (r: Value)
    ensures
        is_int_groups(r, groups@),
{
    let mut t: Vec<(Value, Value)> = Vec::new();
    let mut i: usize = 0;
    while i < groups.len()
        invariant
            i <= groups@.len(),
            t@.len() == i,
            forall|j: int|
                0 <= j < i ==> {
                    &&& (#[trigger] t@[j]).0 == Value::Integer(groups@[j].0 as i128)
                    &&& is_list(t@[j].1, groups@[j].1@)
                },
        decreases groups@.len() - i,
    {
        t.push((Value::Integer(groups[i].0 as i128), list_to_value(&groups[i].1)));
        i = i + 1;
    }
    Value::Table(t)
}

/// The text held by an optional field, if it holds one.
fn text_of(f: Option<&Value>) -> (r: Option<String>)
    ensures
        match r {
            Some(s) => f == Some(&Value::Text(s)),
            None => !(f matches Some(x) && x is Text),
        },
{
    match f {
        Some(Value::Text(s)) => Some(s.clone()),
        _ => None,
    }
}

/// Whether an optional field is left out.
fn absent(f: Option<&Value>) -> (r: bool)
    ensures
        r == (f is None || f == Some(&Value::Nil)),
{
    match f {
        None => true,
        Some(Value::Nil) => true,
        _ => false,
    }
}

impl CharacterInventoryData {
    /// Reads a snapshot from its table form; `None` where `v` has not the
    /// shape of one.
    pub fn from_value(v: &Value) -> (r: Option<CharacterInventoryData>)
        ensures
            match r {
                Some(d) => represents(*v, d),
                None => forall|d: CharacterInventoryData| !represents(*v, d),
            },
    {
        let t = match v {
            Value::Table(t) => t,
            _ => return None,
        };
        let bag = match get_field(t, "bag") {
            Some(b) => match text_groups_from_value(b) {
                Some(g) => g,
                None => return None,
            },
            None => return None,
        };
        let mf = get_field(t, "mailbox");
        let mailbox = if absent(mf) {
            None
        } else {
            match list_from_value(mf.unwrap()) {
                Some(l) => Some(l),
                None => return None,
            }
        };
        let equip = match get_field(t, "equip") {
            Some(e) => match list_from_value(e) {
                Some(l) => l,
                None => return None,
            },
            None => return None,
        };
        let bf = get_field(t, "bank");
        let bank = if absent(bf) {
            None
        } else {
            match int_groups_from_value(bf.unwrap()) {
                Some(g) => Some(g),
                None => return None,
            }
        };
        let money: u64 = match get_field(t, "money") {
            Some(Value::Integer(m)) if 0 <= *m && *m <= u64::MAX as i128 => *m as u64,
            _ => return None,
        };
        let gf = get_field(t, "guild");
        let guild = if absent(gf) {
            None
        } else {
            match text_of(gf) {
                Some(g) => Some(g),
                None => return None,
            }
        };
        let faction = match text_of(get_field(t, "faction")) {
            Some(s) => s,
            None => return None,
        };
        let race = match text_of(get_field(t, "race")) {
            Some(s) => s,
            None => return None,
        };
        let class = match text_of(get_field(t, "class")) {
            Some(s) => s,
            None => return None,
        };
        let gender: i32 = match get_field(t, "gender") {
            Some(Value::Integer(g)) if i32::MIN as i128 <= *g && *g <= i32::MAX as i128 => *g as i32,
            _ => return None,
        };
        Some(CharacterInventoryData { bag, mailbox, equip, bank, money, guild, faction, race, class, gender })
    }

    /// The table form of this snapshot. Left-out optional fields are nil.
    pub fn to_value(&self) -> (r: Value)
        ensures
            represents(r, *self),
            table_form(r, *self),
    {
        proof {
            reveal_strlit("bag");
            reveal_strlit("mailbox");
            reveal_strlit("equip");
            reveal_strlit("bank");
            reveal_strlit("money");
            reveal_strlit("guild");
            reveal_strlit("faction");
            reveal_strlit("race");
            reveal_strlit("class");
            reveal_strlit("gender");
            assert("bag"@.len() == 3);
            assert("mailbox"@.len() == 7);
            assert("equip"@.len() == 5);
            assert("bank"@.len() == 4);
            assert("money"@.len() == 5);
            assert("guild"@.len() == 5);
            assert("faction"@.len() == 7);
            assert("race"@.len() == 4);
            assert("class"@.len() == 5);
            assert("gender"@.len() == 6);
            assert("mailbox"@[0] == 'm' && "faction"@[0] == 'f');
            assert("bank"@[0] == 'b' && "race"@[0] == 'r');
            assert("equip"@[0] == 'e' && "money"@[0] == 'm' && "guild"@[0] == 'g' && "class"@[0] == 'c');
        }
        let mut t: Vec<(Value, Value)> = Vec::new();
        let e = text_entry("bag", text_groups_to_value(&self.bag));
        let ghost t0 = t@;
        t.push(e);
        proof { lemma_field_push(t0, e); }
        let m = match &self.mailbox {
            Some(l) => list_to_value(l),
            None => Value::Nil,
        };
        let e = text_entry("mailbox", m);
        let ghost t0 = t@;
        t.push(e);
        proof { lemma_field_push(t0, e); }
        let e = text_entry("equip", list_to_value(&self.equip));
        let ghost t0 = t@;
        t.push(e);
        proof { lemma_field_push(t0, e); }
        let b = match &self.bank {
            Some(g) => int_groups_to_value(g),
            None => Value::Nil,
        };
        let e = text_entry("bank", b);
        let ghost t0 = t@;
        t.push(e);
        proof { lemma_field_push(t0, e); }
        let e = text_entry("money", Value::Integer(self.money as i128));
        let ghost t0 = t@;
        t.push(e);
        proof { lemma_field_push(t0, e); }
        let g = match &self.guild {
            Some(g) => Value::Text(g.clone()),
            None => Value::Nil,
        };
        let e = text_entry("guild", g);
        let ghost t0 = t@;
        t.push(e);
        proof { lemma_field_push(t0, e); }
        let e = text_entry("faction", Value::Text(self.faction.clone()));
        let ghost t0 = t@;
        t.push(e);
        proof { lemma_field_push(t0, e); }
        let e = text_entry("race", Value::Text(self.race.clone()));
        let ghost t0 = t@;
        t.push(e);
        proof { lemma_field_push(t0, e); }
        let e = text_entry("class", Value::Text(self.class.clone()));
        let ghost t0 = t@;
        t.push(e);
        proof { lemma_field_push(t0, e); }
        let e = text_entry("gender", Value::Integer(self.gender as i128));
        let ghost t0 = t@;
        t.push(e);
        proof { lemma_field_push(t0, e); }
        Value::Table(t)
    }
}

/// Two snapshots with the same content.
pub open spec fn same_snapshot(d1: CharacterInventoryData, d2: CharacterInventoryData) -> bool {
    &&& d1.bag@.len() == d2.bag@.len()
    &&& forall|i: int|
        0 <= i < d1.bag@.len() ==> (#[trigger] d1.bag@[i]).0 == d2.bag@[i].0 && d1.bag@[i].1@ == d2.bag@[i].1@
    &&& d1.mailbox is Some == d2.mailbox is Some
    &&& (d1.mailbox matches Some(m1) ==> d2.mailbox matches Some(m2) && m1@ == m2@)
    &&& d1.equip@ == d2.equip@
    &&& d1.bank is Some == d2.bank is Some
    &&& (d1.bank matches Some(b1) ==> d2.bank matches Some(b2) && b1@.len() == b2@.len() && forall|i: int|
        0 <= i < b1@.len() ==> (#[trigger] b1@[i]).0 == b2@[i].0 && b1@[i].1@ == b2@[i].1@)
    &&& d1.money == d2.money
    &&& d1.guild == d2.guild
    &&& d1.faction == d2.faction
    &&& d1.race == d2.race
    &&& d1.class == d2.class
    &&& d1.gender == d2.gender
}

proof fn lemma_list_unique(v: Value, a: Seq<String>, b: Seq<String>)
    requires
        is_list(v, a),
        is_list(v, b),
    ensures
        a == b,
{
    assert forall|i: int| 0 <= i < a.len() implies a[i] == b[i] by {
        assert(v->Table_0@[i] == (Value::Integer((i + 1) as i128), Value::Text(a[i])));
        assert(v->Table_0@[i] == (Value::Integer((i + 1) as i128), Value::Text(b[i])));
    }
    assert(a =~= b);
}

/// The table form of a snapshot determines it: a snapshot read back from the
/// table form of `d1` has the content of `d1`.
pub proof fn lemma_represents_unique(v: Value, d1: CharacterInventoryData, d2: CharacterInventoryData)
    requires
        represents(v, d1),
        represents(v, d2),
    ensures
        same_snapshot(d1, d2),
{
    let t = v->Table_0@;
    let bag = field(t, "bag"@)->0;
    assert forall|i: int| 0 <= i < d1.bag@.len() implies (#[trigger] d1.bag@[i]).0 == d2.bag@[i].0 && d1.bag@[i].1@
        == d2.bag@[i].1@ by {
        assert(bag->Table_0@[i].0 == Value::Text(d1.bag@[i].0));
        assert(bag->Table_0@[i].0 == Value::Text(d2.bag@[i].0));
        lemma_list_unique(bag->Table_0@[i].1, d1.bag@[i].1@, d2.bag@[i].1@);
    }
    if d1.mailbox is Some {
        lemma_list_unique(field(t, "mailbox"@)->0, d1.mailbox->0@, d2.mailbox->0@);
    }
    lemma_list_unique(field(t, "equip"@)->0, d1.equip@, d2.equip@);
    if d1.bank is Some {
        let bank = field(t, "bank"@)->0;
        let b1 = d1.bank->0@;
        let b2 = d2.bank->0@;
        assert forall|i: int| 0 <= i < b1.len() implies (#[trigger] b1[i]).0 == b2[i].0 && b1[i].1@ == b2[i].1@ by {
            assert(bank->Table_0@[i].0 == Value::Integer(b1[i].0 as i128));
            assert(bank->Table_0@[i].0 == Value::Integer(b2[i].0 as i128));
            lemma_list_unique(bank->Table_0@[i].1, b1[i].1@, b2[i].1@);
        }
    }
}

} // verus!
