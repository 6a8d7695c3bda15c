use vstd::prelude::*;

verus! {

/// A value of the saved table text, as the external consumer writes it.
pub enum Value {
    Nil,
    Boolean(bool),
    Integer(i128),
    /// A number with a fractional part, kept as its decimal text.
    Number(String),
    Text(String),
    /// Key and value pairs, in the order in which they were read.
    Table(Vec<(Value, Value)>),
}

/// `v` is the text `s`.
pub open spec fn is_text(v: Value, s: Seq<char>) -> bool {
    v is Text && v->Text_0@ == s
}

/// Entry `i` of `t` is keyed by the text `name`.
pub open spec fn key_at(t: Seq<(Value, Value)>, i: int, name: Seq<char>) -> bool {
    0 <= i < t.len() && is_text(t[i].0, name)
}

/// Entry `i` is the first one of `t` keyed by `name`.
pub open spec fn first_key(t: Seq<(Value, Value)>, name: Seq<char>, i: int) -> bool {
    key_at(t, i, name) && forall|j: int| 0 <= j < i ==> !#[trigger] key_at(t, j, name)
}

pub open spec fn has_key(t: Seq<(Value, Value)>, name: Seq<char>) -> bool {
    exists|i: int| key_at(t, i, name)
}

/// The value that a lookup of `name` in `t` finds: the first entry keyed by it.
pub open spec fn field(t: Seq<(Value, Value)>, name: Seq<char>) -> Option<Value> {
    if has_key(t, name) {
        Some(t[choose|i: int| first_key(t, name, i)].1)
    } else {
        None
    }
}

pub proof fn lemma_first_key_unique(t: Seq<(Value, Value)>, name: Seq<char>, i: int, j: int)
    requires
        first_key(t, name, i),
        first_key(t, name, j),
    ensures
        i == j,
{
    if i < j {
        assert(key_at(t, i, name));
    } else if j < i {
        assert(key_at(t, j, name));
    }
}

/// A key that occurs has a first occurrence.
pub proof fn lemma_first_key_exists(t: Seq<(Value, Value)>, name: Seq<char>, i: int)
    requires
        key_at(t, i, name),
    ensures
        exists|k: int| first_key(t, name, k),
    decreases i,
{
    if exists|j: int| 0 <= j < i && key_at(t, j, name) {
        let j = choose|j: int| 0 <= j < i && key_at(t, j, name);
        lemma_first_key_exists(t, name, j);
    } else {
        assert(first_key(t, name, i));
    }
}

/// What `field` finds, given the index of the first entry with that key.
pub proof fn lemma_field_at(t: Seq<(Value, Value)>, name: Seq<char>, i: int)
    requires
        first_key(t, name, i),
    ensures
        field(t, name) == Some(t[i].1),
{
    assert(has_key(t, name));
    let k = choose|k: int| first_key(t, name, k);
    lemma_first_key_unique(t, name, i, k);
}

/// Appending an entry changes only the lookups of its own key, and only where
/// that key was not there before.
pub proof fn lemma_field_push(t: Seq<(Value, Value)>, e: (Value, Value))
    ensures
        forall|n: Seq<char>|
            !is_text(e.0, n) ==> #[trigger] field(t.push(e), n) == field(t, n),
        forall|n: Seq<char>|
            is_text(e.0, n) && !has_key(t, n) ==> #[trigger] field(t.push(e), n) == Some(e.1),
{
    let u = t.push(e);
    assert forall|n: Seq<char>| !is_text(e.0, n) implies #[trigger] field(u, n) == field(t, n) by {
        assert forall|j: int| #[trigger] key_at(u, j, n) <==> key_at(t, j, n) by {
            if 0 <= j < t.len() {
                assert(u[j] == t[j]);
            }
        }
        if has_key(t, n) {
            let w = choose|w: int| key_at(t, w, n);
            lemma_first_key_exists(t, n, w);
            let i = choose|i: int| first_key(t, n, i);
            assert(first_key(u, n, i));
            lemma_field_at(u, n, i);
            lemma_field_at(t, n, i);
        }
    }
    assert forall|n: Seq<char>| is_text(e.0, n) && !has_key(t, n) implies #[trigger] field(u, n) == Some(e.1) by {
        let k = t.len() as int;
        assert forall|j: int| 0 <= j < k implies !#[trigger] key_at(u, j, n) by {
            assert(u[j] == t[j]);
            assert(!key_at(t, j, n));
        }
        assert(first_key(u, n, k));
        lemma_field_at(u, n, k);
    }
}

/// An entry keyed by the text `name`.
pub fn text_entry(name: &str, v: Value) -> (r: (Value, Value))
    ensures
        is_text(r.0, name@),
        r.1 == v,
{
    (Value::Text(String::from_str(name)), v)
}

/// Whether two texts are equal, character by character.
pub fn text_eq(a: &str, b: &str) -> (r: bool)
    ensures
        r == (a@ == b@),
{
    let n = a.unicode_len();
    if n != b.unicode_len() {
        return false;
    }
    let mut i: usize = 0;
    while i < n
        invariant
            n == a@.len(),
            n == b@.len(),
            i <= n,
            forall|j: int| 0 <= j < i ==> a@[j] == b@[j],
        decreases n - i,
    {
        if a.get_char(i) != b.get_char(i) {
            return false;
        }
        i = i + 1;
    }
    assert(a@ =~= b@);
    true
}

/// Index of the first entry of `t` keyed by the text `name`.
pub fn find_text_key(t: &Vec<(Value, Value)>, name: &str) -> (r: Option<usize>)
    ensures
        match r {
            Some(i) => first_key(t@, name@, i as int),
            None => !has_key(t@, name@),
        },
{
    let mut i: usize = 0;
    while i < t.len()
        invariant
            i <= t@.len(),
            forall|j: int| 0 <= j < i ==> !#[trigger] key_at(t@, j, name@),
        decreases t@.len() - i,
    {
        match &t[i].0 {
            Value::Text(s) => {
                if text_eq(s.as_str(), name) {
                    return Some(i);
                }
            },
            _ => {},
        }
        i = i + 1;
    }
    None
}

/// The value that a lookup of `name` in `t` finds.
pub fn get_field<'a>(t: &'a Vec<(Value, Value)>, name: &str) -> (r: Option<&'a Value>)
    ensures
        match r {
            Some(v) => field(t@, name@) == Some(*v),
            None => field(t@, name@) is None,
        },
{
    match find_text_key(t, name) {
        Some(i) => {
            proof {
                lemma_field_at(t@, name@, i as int);
            }
            Some(&t[i].1)
        },
        None => None,
    }
}

} // verus!
