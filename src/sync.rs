use vstd::prelude::*;
use vstd::relations::injective_on;
use vstd::set_lib::{lemma_int_range, lemma_len_subset, lemma_map_size, set_int_range};
use crate::value::{Value, text_eq};
use crate::inventory::InventorySet;
use crate::topology::{Account, DB_FILE_NAME};
use crate::database::{Database, SnapshotDecodeError, error_ok, extract_post, update_post};

verus! {

/// Why a sync cycle could not run.
pub enum SyncError {
    /// No registered account has the name that the changed path gave.
    AccountNotRegistered,
    /// The changed path has no plain directory name two levels above the file.
    PathWithoutAccount,
}

/// A file system change. Each path is given as its components, in the form
/// that `std::path::Path::components` yields them, each as text: a root is
/// `"/"` (or `"\\"`), a drive prefix ends with `':'`, and `"."` and `".."`
/// stand for the current and the parent directory; every other component is
/// a plain name.
pub struct ChangeEvent {
    /// The change is a rename, and `paths` holds its source and destination.
    pub is_rename_both: bool,
    pub paths: Vec<Vec<String>>,
}

/// The database file was renamed into place: the writer finished saving it.
pub open spec fn is_save_completion(e: ChangeEvent) -> bool {
    &&& e.is_rename_both
    &&& e.paths@.len() >= 2
    &&& e.paths@[1]@.len() > 0
    &&& e.paths@[1]@.last()@ == DB_FILE_NAME@
}

/// The path to hand on for a change event: the destination of a completed
/// save of the database file, and nothing for any other event.
pub fn saved_db_path(event: &ChangeEvent) -> (r: Option<Vec<String>>)
    ensures
        match r {
            Some(p) => is_save_completion(*event) && p@ == event.paths@[1]@,
            None => !is_save_completion(*event),
        },
{
    if !event.is_rename_both || event.paths.len() < 2 {
        return None;
    }
    let target = &event.paths[1];
    if target.len() == 0 || !text_eq(target[target.len() - 1].as_str(), DB_FILE_NAME) {
        return None;
    }
    let mut p: Vec<String> = Vec::new();
    let mut i: usize = 0;
    while i < target.len()
        invariant
            i <= target@.len(),
            p@ == target@.subrange(0, i as int),
        decreases target@.len() - i,
    {
        p.push(target[i].clone());
        proof {
            assert(p@ =~= target@.subrange(0, i + 1));
        }
        i = i + 1;
    }
    proof {
        assert(p@ =~= target@);
    }
    Some(p)
}

/// A path component that is a plain file name: not a root, a drive prefix,
/// `"."` or `".."`.
pub open spec fn is_plain_name(s: Seq<char>) -> bool {
    &&& s.len() > 0
    &&& s != "."@
    &&& s != ".."@
    &&& s.last() != ':'
    &&& forall|i: int| 0 <= i < s.len() ==> #[trigger] s[i] != '/' && s[i] != '\\'
}

/// Whether a path component is a plain file name.
pub fn is_plain_component(s: &str) -> (r: bool)
    ensures
        r == is_plain_name(s@),
{
    let n = s.unicode_len();
    if n == 0 || text_eq(s, ".") || text_eq(s, "..") || s.get_char(n - 1) == ':' {
        return false;
    }
    let mut i: usize = 0;
    while i < n
        invariant
            n == s@.len(),
            i <= n,
            forall|j: int| 0 <= j < i ==> #[trigger] s@[j] != '/' && s@[j] != '\\',
        decreases n - i,
    {
        let c = s.get_char(i);
        if c == '/' || c == '\\' {
            return false;
        }
        i = i + 1;
    }
    true
}

/// The account that a database path belongs to: the name of the directory two
/// levels above the file, where that is a plain name.
pub fn get_account_name_from_path(components: &Vec<String>) -> (r: Result<String, SyncError>)
    ensures
        match r {
            Ok(name) => components@.len() >= 3 && name == components@[components@.len() - 3]
                && is_plain_name(name@),
            Err(e) => e is PathWithoutAccount && (components@.len() < 3 || !is_plain_name(
                components@[components@.len() - 3]@,
            )),
        },
{
    let n = components.len();
    if n < 3 || !is_plain_component(components[n - 3].as_str()) {
        return Err(SyncError::PathWithoutAccount);
    }
    Ok(components[n - 3].clone())
}

/// Index of the first account named `name`.
pub fn find_account(accounts: &Vec<Account>, name: &str) -> (r: Option<usize>)
    ensures
        match r {
            Some(i) => i < accounts@.len() && accounts@[i as int].name@ == name@ && forall|j: int|
                0 <= j < i ==> (#[trigger] accounts@[j]).name@ != name@,
            None => forall|j: int| 0 <= j < accounts@.len() ==> (#[trigger] accounts@[j]).name@ != name@,
        },
{
    let mut i: usize = 0;
    while i < accounts.len()
        invariant
            i <= accounts@.len(),
            forall|j: int| 0 <= j < i ==> (#[trigger] accounts@[j]).name@ != name@,
        decreases accounts@.len() - i,
    {
        if text_eq(accounts[i].name.as_str(), name) {
            return Some(i);
        }
        i = i + 1;
    }
    None
}

/// `es2` is `es` after a propagation from the account `src` whose database
/// held `src_es`; `errs` are the entries of `src` that held no snapshot.
pub open spec fn propagated(
    src: Account,
    src_es: Seq<(String, Value)>,
    es: Seq<(String, Value)>,
    es2: Seq<(String, Value)>,
    errs: Seq<SnapshotDecodeError>,
) -> bool {
    exists|sets: Seq<InventorySet>| extract_post(src, src_es, sets, errs) && update_post(es, es2, sets)
}

impl Account {
    /// Merges the snapshots of `other`'s known characters, read from
    /// `other_db`, into `db`, this account's database. Returns the entries of
    /// `other` that held no snapshot.
    pub fn update_from(&self, db: &mut Database, other: &Account, other_db: &Database) -> (r: Vec<SnapshotDecodeError>)
        ensures
            propagated(*other, other_db.entries@, old(db).entries@, final(db).entries@, r@),
            forall|k: int| 0 <= k < r@.len() ==> other.knows((#[trigger] r@[k]).realm_name@, r@[k].character_name@),
    {
        let (sets, errs) = other.get_inventory_setters(other_db);
        db.update(&sets);
        proof {
            assert forall|k: int| 0 <= k < errs@.len() implies other.knows((#[trigger] errs@[k]).realm_name@, errs@[k].character_name@) by {
                assert(error_ok(*other, other_db.entries@, errs@, k));
            }
            assert(extract_post(*other, other_db.entries@, sets@, errs@) && update_post(
                old(db).entries@,
                db.entries@,
                sets@,
            ));
        }
        errs
    }
}

/// One sync cycle after the database of `account_name` changed: its snapshots
/// are merged into the database of every other account. Its own database is
/// left as it is.
pub fn inventory_db_updated(accounts: &Vec<Account>, dbs: &mut Vec<Database>, account_name: &str) -> (r: Result<
    Vec<SnapshotDecodeError>,
    SyncError,
>)
    requires
        old(dbs)@.len() == accounts@.len(),
    ensures
        final(dbs)@.len() == old(dbs)@.len(),
        match r {
            Ok(skipped) => exists|src: int|
                0 <= src < accounts@.len() && (#[trigger] accounts@[src]).name@ == account_name@ && final(dbs)@[src]
                    == old(dbs)@[src] && exists|sets: Seq<InventorySet>| {
                    &&& extract_post(accounts@[src], old(dbs)@[src].entries@, sets, skipped@)
                    &&& forall|t: int|
                        0 <= t < accounts@.len() && t != src ==> update_post(
                            old(dbs)@[t].entries@,
                            (#[trigger] final(dbs)@[t]).entries@,
                            sets,
                        )
                },
            Err(e) => e is AccountNotRegistered && final(dbs)@ == old(dbs)@ && forall|j: int|
                0 <= j < accounts@.len() ==> (#[trigger] accounts@[j]).name@ != account_name@,
        },
{
    let s = match find_account(accounts, account_name) {
        Some(s) => s,
        None => return Err(SyncError::AccountNotRegistered),
    };
    let ghost d0 = dbs@;
    let (sets, errs) = accounts[s].get_inventory_setters(&dbs[s]);
    let mut t: usize = 0;
    while t < dbs.len()
        invariant
            s < accounts@.len(),
            d0 == old(dbs)@,
            dbs@.len() == d0.len(),
            d0.len() == accounts@.len(),
            dbs@[s as int] == d0[s as int],
            forall|u: int| t <= u < d0.len() ==> #[trigger] dbs@[u] == d0[u],
            forall|u: int| 0 <= u < t && u != s ==> update_post(d0[u].entries@, (#[trigger] dbs@[u]).entries@, sets@),
        decreases d0.len() - t,
    {
        if t != s {
            let mut target = Database { entries: Vec::new() };
            dbs.set_and_swap(t, &mut target);
            target.update(&sets);
            dbs.set(t, target);
        }
        t = t + 1;
    }
    proof {
        assert(accounts@[s as int].name@ == account_name@);
        assert(extract_post(accounts@[s as int], old(dbs)@[s as int].entries@, sets@, errs@));
    }
    let r: Result<Vec<SnapshotDecodeError>, SyncError> = Ok(errs);
    assert(r matches Ok(skipped) && skipped == errs);
    r
}

/// `sets` is what extraction by `acct` from `es` gives.
pub open spec fn extracted(acct: Account, es: Seq<(String, Value)>, sets: Seq<InventorySet>) -> bool {
    exists|errs: Seq<SnapshotDecodeError>| extract_post(acct, es, sets, errs)
}

/// Some account knows the character that `e` names.
pub open spec fn known_somewhere(accounts: Seq<Account>, e: SnapshotDecodeError) -> bool {
    exists|a: int| 0 <= a < accounts.len() && #[trigger] accounts[a].knows(e.realm_name@, e.character_name@)
}

/// `r` lists each account index below `n` once, from the least to the most
/// recently written by `written`.
pub open spec fn is_oldest_first(r: Seq<usize>, written: Seq<u64>) -> bool {
    &&& r.len() == written.len()
    &&& forall|k: int| 0 <= k < r.len() ==> #[trigger] r[k] < written.len()
    &&& forall|k1: int, k2: int| 0 <= k1 < k2 < r.len() ==> #[trigger] r[k1] != #[trigger] r[k2]
    &&& forall|k1: int, k2: int|
        0 <= k1 < k2 < r.len() ==> written[#[trigger] r[k1] as int] <= written[#[trigger] r[k2] as int]
}

/// Orders the accounts by the time their databases were last written,
/// oldest first.
pub fn oldest_first(written: &Vec<u64>) -> (r: Vec<usize>)
    ensures
        is_oldest_first(r@, written@),
{
    let n = written.len();
    let mut used: Vec<bool> = Vec::new();
    let mut i: usize = 0;
    while i < n
        invariant
            i <= n,
            n == written@.len(),
            used@.len() == i,
            forall|j: int| 0 <= j < i ==> !#[trigger] used@[j],
        decreases n - i,
    {
        used.push(false);
        i = i + 1;
    }
    let mut r: Vec<usize> = Vec::new();
    while r.len() < n
        invariant
            n == written@.len(),
            used@.len() == n,
            r@.len() <= n,
            forall|k: int| 0 <= k < r@.len() ==> #[trigger] r@[k] < n && used@[r@[k] as int],
            forall|j: int| 0 <= j < n && #[trigger] used@[j] ==> exists|k: int| 0 <= k < r@.len() && r@[k] == j,
            forall|k1: int, k2: int| 0 <= k1 < k2 < r@.len() ==> #[trigger] r@[k1] != #[trigger] r@[k2],
            forall|k1: int, k2: int|
                0 <= k1 < k2 < r@.len() ==> written@[#[trigger] r@[k1] as int] <= written@[#[trigger] r@[k2] as int],
            forall|k: int, j: int|
                0 <= k < r@.len() && 0 <= j < n && !used@[j] ==> written@[#[trigger] r@[k] as int] <= #[trigger] written@[j],
        decreases n - r@.len(),
    {
        // an unused index exists: the used ones are exactly those in `r`
        proof {
            if forall|j: int| 0 <= j < n ==> #[trigger] used@[j] {
                let f = |j: int| choose|k: int| 0 <= k < r@.len() && r@[k] == j;
                let x = set_int_range(0, n as int);
                lemma_int_range(0, n as int);
                assert(injective_on(f, x)) by {
                    assert forall|j1: int, j2: int| x.contains(j1) && x.contains(j2) && #[trigger] f(j1) == #[trigger] f(j2) implies j1 == j2 by {
                        assert(used@[j1] && used@[j2]);
                    }
                }
                let y = x.map(f);
                lemma_map_size(x, y, f);
                let z = set_int_range(0, r@.len() as int);
                lemma_int_range(0, r@.len() as int);
                assert(y.subset_of(z)) by {
                    assert forall|k: int| y.contains(k) implies z.contains(k) by {
                        let j = choose|j: int| x.contains(j) && f(j) == k;
                        assert(used@[j]);
                    }
                }
                lemma_len_subset(y, z);
                assert(false);
            }
        }
        let mut best: usize = n;
        let mut j: usize = 0;
        while j < n
            invariant
                n == written@.len(),
                used@.len() == n,
                j <= n,
                best == n || (best < j && !used@[best as int]),
                best == n ==> forall|m: int| 0 <= m < j ==> #[trigger] used@[m],
                best < n ==> forall|m: int| 0 <= m < j && !used@[m] ==> written@[best as int] <= #[trigger] written@[m],
            decreases n - j,
        {
            if !used[j] && (best == n || written[j] < written[best]) {
                best = j;
            }
            j = j + 1;
        }
        assert(best < n);
        let ghost r0 = r@;
        used.set(best, true);
        r.push(best);
        proof {
            assert forall|jj: int| 0 <= jj < n && #[trigger] used@[jj] implies exists|k: int| 0 <= k < r@.len() && r@[k] == jj by {
                if jj != best {
                    let k = choose|k: int| 0 <= k < r0.len() && r0[k] == jj;
                    assert(r@[k] == jj);
                } else {
                    assert(r@[r0.len() as int] == jj);
                }
            }
        }
    }
    r
}

/// `end` is `start` after the sets of the accounts `order[0..upto]` were
/// merged into it in that order.
pub open spec fn folded(
    sets: Seq<Seq<InventorySet>>,
    order: Seq<usize>,
    start: Seq<(String, Value)>,
    end: Seq<(String, Value)>,
    upto: int,
) -> bool
    decreases upto,
{
    if upto <= 0 {
        end == start
    } else {
        exists|mid: Seq<(String, Value)>|
            folded(sets, order, start, mid, upto - 1) && #[trigger] update_post(mid, end, sets[order[upto - 1] as int])
    }
}

/// `after` is `before` after the startup sync: `sets` are the accounts'
/// extractions from `before`, and each database received all of them in the
/// order `order`, oldest written first.
pub open spec fn startup_folded(
    accounts: Seq<Account>,
    before: Seq<Database>,
    after: Seq<Database>,
    written: Seq<u64>,
    order: Seq<usize>,
    sets: Seq<Seq<InventorySet>>,
) -> bool {
    &&& is_oldest_first(order, written)
    &&& sets.len() == accounts.len()
    &&& forall|s: int| 0 <= s < accounts.len() ==> #[trigger] extracted(accounts[s], before[s].entries@, sets[s])
    &&& forall|t: int|
        0 <= t < accounts.len() ==> folded(
            sets,
            order,
            before[t].entries@,
            (#[trigger] after[t]).entries@,
            accounts.len() as int,
        )
}

/// The startup sync. The snapshots of every account are read from the
/// databases as they stood before it; each database then receives them
/// account by account from the least to the most recently written, by
/// `written`, so that for each character the freshest snapshot wins, its own
/// included. Returns the entries that held no snapshot, each of a character
/// that some account knows.
pub fn startup_sync(accounts: &Vec<Account>, dbs: &mut Vec<Database>, written: &Vec<u64>) -> (r: Vec<SnapshotDecodeError>)
    requires
        old(dbs)@.len() == accounts@.len(),
        written@.len() == accounts@.len(),
    ensures
        final(dbs)@.len() == old(dbs)@.len(),
        forall|k: int| 0 <= k < r@.len() ==> #[trigger] known_somewhere(accounts@, r@[k]),
        exists|ord: Seq<usize>, per_account: Seq<Seq<InventorySet>>| #[trigger] startup_folded(
            accounts@,
            old(dbs)@,
            final(dbs)@,
            written@,
            ord,
            per_account,
        ),
{
    let ghost d0 = dbs@;
    let n = dbs.len();
    let order = oldest_first(written);
    let mut all_sets: Vec<Vec<InventorySet>> = Vec::new();
    let mut all_errs: Vec<SnapshotDecodeError> = Vec::new();
    let mut s: usize = 0;
    while s < n
        invariant
            n == d0.len(),
            n == accounts@.len(),
            dbs@ == d0,
            s <= n,
            all_sets@.len() == s,
            forall|u: int|
                0 <= u < s ==> #[trigger] extracted(accounts@[u], d0[u].entries@, all_sets@[u]@),
            forall|k: int| 0 <= k < all_errs@.len() ==> #[trigger] known_somewhere(accounts@, all_errs@[k]),
        decreases n - s,
    {
        let (sets, errs) = accounts[s].get_inventory_setters(&dbs[s]);
        proof {
            assert forall|k: int| 0 <= k < errs@.len() implies #[trigger] accounts@[s as int].knows(
                errs@[k].realm_name@,
                errs@[k].character_name@,
            ) by {
                assert(error_ok(accounts@[s as int], d0[s as int].entries@, errs@, k));
            }
        }
        let ghost e0 = all_errs@;
        let ghost a0 = all_sets@;
        let mut errs = errs;
        let ghost e1 = errs@;
        all_errs.append(&mut errs);
        all_sets.push(sets);
        proof {
            assert forall|u: int|
                0 <= u < s + 1 implies #[trigger] extracted(accounts@[u], d0[u].entries@, all_sets@[u]@) by {
                if u < s {
                    assert(all_sets@[u] == a0[u]);
                } else {
                    assert(extract_post(accounts@[u], d0[u].entries@, all_sets@[u]@, e1));
                }
            }
            assert forall|k: int| 0 <= k < all_errs@.len() implies #[trigger] known_somewhere(accounts@, all_errs@[k]) by {
                if k < e0.len() {
                    assert(all_errs@[k] == e0[k]);
                } else {
                    assert(all_errs@[k] == e1[k - e0.len()]);
                    assert(accounts@[s as int].knows(e1[k - e0.len()].realm_name@, e1[k - e0.len()].character_name@));
                }
            }
        }
        s = s + 1;
    }
    let ghost sets_v = Seq::new(n as nat, |u: int| all_sets@[u]@);
    let mut t: usize = 0;
    while t < n
        invariant
            n == d0.len(),
            n == accounts@.len(),
            d0 == old(dbs)@,
            dbs@.len() == n,
            t <= n,
            is_oldest_first(order@, written@),
            written@.len() == n,
            all_sets@.len() == n,
            sets_v == Seq::new(n as nat, |u: int| all_sets@[u]@),
            forall|u: int| t <= u < n ==> #[trigger] dbs@[u] == d0[u],
            forall|u: int| 0 <= u < t ==> folded(sets_v, order@, d0[u].entries@, (#[trigger] dbs@[u]).entries@, n as int),
        decreases n - t,
    {
        let mut target = Database { entries: Vec::new() };
        dbs.set_and_swap(t, &mut target);
        let ghost start = target.entries@;
        let ghost outer = dbs@;
        let mut k: usize = 0;
        while k < n
            invariant
                n == d0.len(),
                n == accounts@.len(),
                dbs@.len() == n,
                t < n,
                k <= n,
                is_oldest_first(order@, written@),
                written@.len() == n,
                all_sets@.len() == n,
                sets_v == Seq::new(n as nat, |u: int| all_sets@[u]@),
                start == d0[t as int].entries@,
                dbs@ == outer,
                folded(sets_v, order@, start, target.entries@, k as int),
            decreases n - k,
        {
            let ghost mid = target.entries@;
            let src = order[k];
            assert(src < n);
            target.update(&all_sets[src]);
            proof {
                assert(sets_v[order@[k as int] as int] == all_sets@[src as int]@);
                assert(update_post(mid, target.entries@, sets_v[order@[k as int] as int]));
                let kk = k + 1;
                assert(order@[kk - 1] == order@[k as int]);
                assert(folded(sets_v, order@, start, target.entries@, kk));
            }
            k = k + 1;
        }
        let ghost before = dbs@;
        dbs.set(t, target);
        assert(forall|u: int| 0 <= u < n && u != t ==> #[trigger] before[u] == outer[u]);
        proof {
            assert forall|u: int| 0 <= u < t + 1 implies folded(sets_v, order@, d0[u].entries@, (#[trigger] dbs@[u]).entries@, n as int) by {
                if u < t {
                    assert(dbs@[u] == before[u]);
                }
            }
        }
        t = t + 1;
    }
    proof {
        assert(forall|u: int| 0 <= u < n ==> #[trigger] extracted(accounts@[u], old(dbs)@[u].entries@, sets_v[u]));
        assert(startup_folded(accounts@, old(dbs)@, dbs@, written@, order@, sets_v));
    }
    all_errs
}

} // verus!
