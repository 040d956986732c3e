//! Bounded working-copy storage for downloaded Apple Photos originals and
//! thumbnails. Only generated cache entries are managed here; durable edits
//! live in a different application-data tree. The file system is walked and
//! changed by the caller; this module keeps the leases and decides which
//! entries go.
use vstd::prelude::*;
use crate::order::{is_order_of, key_before, sort_indices};
use crate::paths::{join_path, path_join};
use crate::text::{chars_of, copy_range, starts_with, starts_with_exec, string_of};

verus! {

pub const GIB: u64 = 1024 * 1024 * 1024;

pub const DEFAULT_LIMIT: u64 = 4 * GIB;

pub struct CacheStatus {
    pub size_bytes: u64,
    pub limit_bytes: u64,
    pub in_use_bytes: u64,
}

#[derive(Debug)]
pub struct Cleanup {
    pub removed_bytes: u64,
    pub remaining_bytes: u64,
    pub protected_bytes: u64,
}

/// One cache entry (`<root>/<asset>/<group>`) as found on disk: its path,
/// the bytes of its files, and when it was last used.
pub struct CacheEntry {
    pub path: String,
    pub bytes: u64,
    pub used: u64,
}

/// Which entries to remove, in order, and what the cache holds afterwards.
pub struct CleanupPlan {
    pub evict: Vec<usize>,
    pub cleanup: Cleanup,
}

/// Hold this through download AND decoding/reading, not just path resolution.
pub struct CacheLease {
    path: String,
}

impl CacheLease {
    pub closed spec fn path_view(&self) -> Seq<char> {
        self.path@
    }

    pub fn path(&self) -> (r: &str)
        ensures
            r@ == self.path_view(),
    {
        self.path.as_str()
    }
}

/// The lease count a table holds for `p`.
pub open spec fn count_in(active: Seq<(String, usize)>, p: Seq<char>) -> nat
    decreases active.len(),
{
    if active.len() == 0 {
        0
    } else if active.last().0@ == p {
        active.last().1 as nat
    } else {
        count_in(active.drop_last(), p)
    }
}

pub struct PhotoCache {
    root: String,
    limit: u64,
    active: Vec<(String, usize)>,
}

impl PhotoCache {
    /// Each path appears at most once in the lease table, with a positive
    /// count.
    pub closed spec fn wf(&self) -> bool {
        &&& forall|i: int, j: int|
            0 <= i < j < self.active@.len() ==> (#[trigger] self.active@[i]).0@ != (
            #[trigger] self.active@[j]).0@
        &&& forall|i: int| 0 <= i < self.active@.len() ==> (#[trigger] self.active@[i]).1 >= 1
    }

    pub closed spec fn root(&self) -> Seq<char> {
        self.root@
    }

    pub closed spec fn limit(&self) -> u64 {
        self.limit
    }

    /// The live leases: each leased entry path with its count.
    pub closed spec fn leases(&self) -> Map<Seq<char>, nat> {
        Map::new(
            |p: Seq<char>| count_in(self.active@, p) > 0,
            |p: Seq<char>| count_in(self.active@, p),
        )
    }
}

/// An asset directory name: non-empty, at most 1024 characters, an even
/// number of hex digits.
pub open spec fn valid_asset_spec(v: Seq<char>) -> bool {
    &&& v.len() > 0
    &&& v.len() <= 1024
    &&& v.len() % 2 == 0
    &&& forall|i: int| 0 <= i < v.len() ==> is_hex_digit(#[trigger] v[i])
}

pub open spec fn is_hex_digit(c: char) -> bool {
    let u = c as u32;
    (48 <= u <= 57) || (65 <= u <= 70) || (97 <= u <= 102)
}

pub open spec fn previews() -> Seq<char> {
    seq!['p', 'r', 'e', 'v', 'i', 'e', 'w', 's']
}

pub open spec fn source_prefix() -> Seq<char> {
    seq!['s', 'o', 'u', 'r', 'c', 'e', '-']
}

/// A group directory name: `previews`, or `source-` and 16 hex digits.
pub open spec fn valid_group_spec(v: Seq<char>) -> bool {
    ||| v == previews()
    ||| (starts_with(v, source_prefix()) && v.len() == 23 && forall|i: int|
        7 <= i < 23 ==> is_hex_digit(#[trigger] v[i]))
}

fn is_hex_digit_exec(c: char) -> (r: bool)
    ensures
        r == is_hex_digit(c),
{
    let u = c as u32;
    (48 <= u && u <= 57) || (65 <= u && u <= 70) || (97 <= u && u <= 102)
}

fn all_hex_from(v: &[char], from: usize) -> (r: bool)
    requires
        from <= v@.len(),
    ensures
        r == forall|i: int| from <= i < v@.len() ==> is_hex_digit(#[trigger] v@[i]),
{
    let mut i = from;
    while i < v.len()
        invariant
            from <= i <= v@.len(),
            forall|j: int| from <= j < i ==> is_hex_digit(#[trigger] v@[j]),
        decreases v@.len() - i,
    {
        if !is_hex_digit_exec(v[i]) {
            return false;
        }
        i += 1;
    }
    true
}

/// Whether a name can be an asset directory.
pub fn valid_asset(value: &str) -> (r: bool)
    ensures
        r == valid_asset_spec(value@),
{
    let v = chars_of(value);
    v.len() > 0 && v.len() <= 1024 && v.len() % 2 == 0 && all_hex_from(&v, 0)
}

/// Whether a name can be a group directory.
pub fn valid_group(value: &str) -> (r: bool)
    ensures
        r == valid_group_spec(value@),
{
    let v = chars_of(value);
    let p: [char; 8] = ['p', 'r', 'e', 'v', 'i', 'e', 'w', 's'];
    let s: [char; 7] = ['s', 'o', 'u', 'r', 'c', 'e', '-'];
    assert(p@ =~= previews());
    assert(s@ =~= source_prefix());
    if v.len() == 8 && starts_with_exec(&v, &p) {
        assert(v@.subrange(0, 8) =~= v@);
        return true;
    }
    if v.len() == 8 {
        assert(v@.subrange(0, 8) =~= v@);
    }
    starts_with_exec(&v, &s) && v.len() == 23 && all_hex_from(&v, 7)
}

/// `<root>/<asset>/<group>`.
pub open spec fn entry_path(root: Seq<char>, asset: Seq<char>, group: Seq<char>) -> Seq<char> {
    path_join(path_join(root, asset), group)
}

pub open spec fn total_bytes(es: Seq<CacheEntry>) -> int
    decreases es.len(),
{
    if es.len() == 0 {
        0
    } else {
        total_bytes(es.drop_last()) + es.last().bytes
    }
}

/// The bytes of the entries some lease holds.
pub open spec fn leased_bytes(es: Seq<CacheEntry>, leases: Map<Seq<char>, nat>) -> int
    decreases es.len(),
{
    if es.len() == 0 {
        0
    } else {
        leased_bytes(es.drop_last(), leases) + if leases.dom().contains(es.last().path@) {
            es.last().bytes as int
        } else {
            0
        }
    }
}

pub open spec fn used_keys(es: Seq<CacheEntry>) -> Seq<u64> {
    Seq::new(es.len(), |i: int| es[i].used)
}

/// Walking entries least recently used first: stop once at or under a
/// positive target; skip leased entries; evict the rest. Gives the evicted
/// indices, in order, and the bytes they held.
pub open spec fn walk(
    es: Seq<CacheEntry>,
    leases: Map<Seq<char>, nat>,
    target: int,
    order: Seq<usize>,
) -> (Seq<usize>, int)
    decreases order.len(),
{
    if order.len() == 0 {
        (Seq::empty(), 0)
    } else {
        let prev = walk(es, leases, target, order.drop_last());
        let e = order.last() as int;
        let remaining = total_bytes(es) - prev.1;
        if (target > 0 && remaining <= target) || leases.dom().contains(es[e].path@) {
            prev
        } else {
            (prev.0.push(order.last()), prev.1 + es[e].bytes)
        }
    }
}

/// What a cleanup down to `target` (0: everything not leased) does: the
/// entries go least recently used first, each whole, until the cache is
/// at or under a positive target; leased entries are never touched.
pub open spec fn is_cleanup(
    es: Seq<CacheEntry>,
    leases: Map<Seq<char>, nat>,
    target: int,
    plan: CleanupPlan,
) -> bool {
    exists|order: Seq<usize>|
        #![trigger walk(es, leases, target, order)]
        is_order_of(used_keys(es), order) && {
            let (ev, removed) = walk(es, leases, target, order);
            &&& plan.evict@ == ev
            &&& plan.cleanup.removed_bytes == removed
            &&& plan.cleanup.remaining_bytes == total_bytes(es) - removed
            &&& plan.cleanup.protected_bytes == leased_bytes(es, leases)
        }
}

/// The bytes of the entries whose index is in `sel`, among the first `n`.
pub open spec fn sum_sel(es: Seq<CacheEntry>, sel: Set<int>, n: int) -> int
    decreases n,
{
    if n <= 0 {
        0
    } else {
        sum_sel(es, sel, n - 1) + if sel.contains(n - 1) {
            es[n - 1].bytes as int
        } else {
            0
        }
    }
}

proof fn lemma_sum_sel_bound(es: Seq<CacheEntry>, sel: Set<int>, n: int)
    requires
        0 <= n <= es.len(),
    ensures
        0 <= sum_sel(es, sel, n) <= total_bytes(es.take(n)),
    decreases n,
{
    if n > 0 {
        lemma_sum_sel_bound(es, sel, n - 1);
        assert(es.take(n).drop_last() =~= es.take(n - 1));
    }
}

proof fn lemma_sum_sel_empty(es: Seq<CacheEntry>, n: int)
    ensures
        sum_sel(es, Set::empty(), n) == 0,
    decreases n,
{
    if n > 0 {
        lemma_sum_sel_empty(es, n - 1);
    }
}

proof fn lemma_sum_sel_insert(es: Seq<CacheEntry>, sel: Set<int>, n: int, e: int)
    requires
        0 <= e < n,
        !sel.contains(e),
    ensures
        sum_sel(es, sel.insert(e), n) == sum_sel(es, sel, n) + es[e].bytes,
    decreases n,
{
    if n - 1 > e {
        lemma_sum_sel_insert(es, sel, n - 1, e);
    } else {
        assert(sum_sel(es, sel.insert(e), n - 1) == sum_sel(es, sel, n - 1)) by {
            lemma_sum_sel_same(es, sel.insert(e), sel, n - 1);
        }
    }
}

proof fn lemma_sum_sel_same(es: Seq<CacheEntry>, a: Set<int>, b: Set<int>, n: int)
    requires
        forall|i: int| 0 <= i < n ==> (a.contains(i) == b.contains(i)),
    ensures
        sum_sel(es, a, n) == sum_sel(es, b, n),
    decreases n,
{
    if n > 0 {
        lemma_sum_sel_same(es, a, b, n - 1);
    }
}

impl PhotoCache {
    pub fn new(root: &str, limit: u64) -> (r: PhotoCache)
        ensures
            r.root() == root@,
            r.limit() == limit,
            r.leases() == Map::<Seq<char>, nat>::empty(),
            r.wf(),
    {
        let r = PhotoCache { root: string_of(&chars_of(root)), limit, active: Vec::new() };
        assert(r.leases() =~= Map::<Seq<char>, nat>::empty());
        r
    }

    /// Where an entry lives, checked: `Err` for a name that is not an asset
    /// key or a known group.
    pub fn entry_path(&self, asset: &str, group: &str) -> (r: Result<String, String>)
        ensures
            (valid_asset_spec(asset@) && valid_group_spec(group@)) <==> r is Ok,
            r matches Ok(p) ==> p@ == entry_path(self.root(), asset@, group@),
    {
        if !valid_asset(asset) || !valid_group(group) {
            return Err("Invalid Apple Photos cache entry".to_string());
        }
        let parent = join_path(self.root.as_str(), asset);
        Ok(join_path(parent.as_str(), group))
    }

    /// How many leases are held on the entry at `path`.
    pub fn lease_count(&self, path: &str) -> (r: usize)
        requires
            self.wf(),
        ensures
            r == count_in_map(self.leases(), path@),
    {
        proof {
            lemma_count_in(self.active@, path@);
        }
        match self.find_active(path) {
            Some(i) => self.active[i].1,
            None => 0,
        }
    }

    fn find_active(&self, p: &str) -> (r: Option<usize>)
        ensures
            match r {
                Some(i) => i < self.active@.len() && self.active@[i as int].0@ == p@,
                None => forall|i: int| 0 <= i < self.active@.len() ==> self.active@[i].0@ != p@,
            },
    {
        let pc = chars_of(p);
        let mut i: usize = 0;
        while i < self.active.len()
            invariant
                i <= self.active@.len(),
                pc@ == p@,
                forall|j: int| 0 <= j < i ==> self.active@[j].0@ != p@,
            decreases self.active@.len() - i,
        {
            let q = chars_of(self.active[i].0.as_str());
            if crate::text::eq_exec(&q, &pc) {
                return Some(i);
            }
            i += 1;
        }
        None
    }

    /// Take a lease on `<root>/<asset>/<group>`: while any lease on an entry
    /// is held, no cleanup removes it.
    pub fn lease(&mut self, asset: &str, group: &str) -> (r: Result<CacheLease, String>)
        requires
            old(self).wf(),
            count_in_map(old(self).leases(), entry_path(old(self).root(), asset@, group@))
                < usize::MAX,
        ensures
            final(self).wf(),
            final(self).root() == old(self).root(),
            final(self).limit() == old(self).limit(),
            (valid_asset_spec(asset@) && valid_group_spec(group@)) <==> r is Ok,
            r is Err ==> final(self).leases() == old(self).leases(),
            r matches Ok(l) ==> {
                let p = entry_path(old(self).root(), asset@, group@);
                &&& l.path_view() == p
                &&& final(self).leases() == old(self).leases().insert(
                    p,
                    count_in_map(old(self).leases(), p) + 1,
                )
            },
    {
        let path = self.entry_path(asset, group)?;
        Ok(self.acquire(path))
    }

    fn acquire(&mut self, path: String) -> (r: CacheLease)
        requires
            old(self).wf(),
            count_in_map(old(self).leases(), path@) < usize::MAX,
        ensures
            final(self).wf(),
            final(self).root() == old(self).root(),
            final(self).limit() == old(self).limit(),
            r.path_view() == path@,
            final(self).leases() == old(self).leases().insert(
                path@,
                count_in_map(old(self).leases(), path@) + 1,
            ),
    {
        let ghost p = path@;
        let ghost before = self.active@;
        let ghost old_leases = self.leases();
        proof {
            lemma_count_in(before, p);
        }
        match self.find_active(path.as_str()) {
            Some(i) => {
                let name = self.active[i].0.clone();
                let c = self.active[i].1;
                proof {
                    lemma_count_in_at(before, i as int);
                }
                assert(c < usize::MAX);
                self.active.set(i, (name, c + 1));
                proof {
                    assert forall|q: Seq<char>| count_in(self.active@, q) == (if q == p {
                        c as nat + 1
                    } else {
                        count_in(before, q)
                    }) by {
                        lemma_count_in_update(before, i as int, (c + 1) as usize, q);
                    }
                }
            },
            None => {
                proof {
                    assert(count_in(before, p) == 0);
                }
                self.active.push((string_of(&chars_of(path.as_str())), 1));
                assert forall|q: Seq<char>| count_in(self.active@, q) == (if q == p {
                    1nat
                } else {
                    count_in(before, q)
                }) by {
                    assert(self.active@.drop_last() =~= before);
                }
            },
        }
        assert(self.leases() =~= old_leases.insert(p, count_in_map(old_leases, p) + 1));
        CacheLease { path }
    }

    /// Give a lease back; the last one on an entry makes it removable again.
    pub fn release(&mut self, lease: CacheLease)
        requires
            old(self).wf(),
        ensures
            final(self).wf(),
            final(self).root() == old(self).root(),
            final(self).limit() == old(self).limit(),
            final(self).leases() == if count_in_map(old(self).leases(), lease.path_view()) > 1 {
                old(self).leases().insert(
                    lease.path_view(),
                    (count_in_map(old(self).leases(), lease.path_view()) - 1) as nat,
                )
            } else {
                old(self).leases().remove(lease.path_view())
            },
    {
        let ghost p = lease.path@;
        let ghost before = self.active@;
        let ghost old_leases = self.leases();
        proof {
            lemma_count_in(before, p);
        }
        match self.find_active(lease.path.as_str()) {
            Some(i) => {
                proof {
                    lemma_count_in_at(before, i as int);
                }
                let c = self.active[i].1;
                if c > 1 {
                    let name = self.active[i].0.clone();
                    self.active.set(i, (name, c - 1));
                    assert forall|q: Seq<char>| count_in(self.active@, q) == (if q == p {
                        (c - 1) as nat
                    } else {
                        count_in(before, q)
                    }) by {
                        lemma_count_in_update(before, i as int, (c - 1) as usize, q);
                    }
                    assert(self.leases() =~= old_leases.insert(p, (c - 1) as nat));
                } else {
                    self.active.remove(i);
                    assert forall|q: Seq<char>| count_in(self.active@, q) == (if q == p {
                        0nat
                    } else {
                        count_in(before, q)
                    }) by {
                        lemma_count_in_remove(before, i as int, q);
                    }
                    assert(self.leases() =~= old_leases.remove(p));
                }
            },
            None => {
                assert(old_leases =~= old_leases.remove(p));
            },
        }
    }

    pub fn set_limit(&mut self, limit: u64)
        ensures
            old(self).wf() ==> final(self).wf(),
            final(self).root() == old(self).root(),
            final(self).limit() == limit,
            final(self).leases() == old(self).leases(),
    {
        self.limit = limit;
    }

    pub fn get_limit(&self) -> (r: u64)
        ensures
            r == self.limit(),
    {
        self.limit
    }

    fn is_leased(&self, p: &str) -> (r: bool)
        requires
            self.wf(),
        ensures
            r == self.leases().dom().contains(p@),
    {
        proof {
            lemma_count_in(self.active@, p@);
        }
        match self.find_active(p) {
            Some(i) => {
                proof {
                    lemma_count_in_at(self.active@, i as int);
                }
                true
            },
            None => false,
        }
    }

    /// The cache's size, its limit, and how much of it leases hold.
    pub fn status(&self, entries: &Vec<CacheEntry>) -> (r: CacheStatus)
        requires
            self.wf(),
            total_bytes(entries@) <= u64::MAX,
        ensures
            r.size_bytes == total_bytes(entries@),
            r.limit_bytes == self.limit(),
            r.in_use_bytes == leased_bytes(entries@, self.leases()),
    {
        let (size, in_use) = self.sums(entries);
        CacheStatus { size_bytes: size, limit_bytes: self.limit, in_use_bytes: in_use }
    }

    fn sums(&self, entries: &Vec<CacheEntry>) -> (r: (u64, u64))
        requires
            self.wf(),
            total_bytes(entries@) <= u64::MAX,
        ensures
            r.0 == total_bytes(entries@),
            r.1 == leased_bytes(entries@, self.leases()),
    {
        let mut size: u64 = 0;
        let mut in_use: u64 = 0;
        let mut i: usize = 0;
        while i < entries.len()
            invariant
                i <= entries@.len(),
                self.wf(),
                total_bytes(entries@) <= u64::MAX,
                size == total_bytes(entries@.take(i as int)),
                in_use == leased_bytes(entries@.take(i as int), self.leases()),
            decreases entries@.len() - i,
        {
            assert(entries@.take(i + 1).drop_last() =~= entries@.take(i as int));
            proof {
                lemma_total_prefix(entries@, i + 1);
                lemma_leased_le_total(entries@.take(i + 1), self.leases());
            }
            size = size + entries[i].bytes;
            if self.is_leased(entries[i].path.as_str()) {
                in_use = in_use + entries[i].bytes;
            }
            i += 1;
        }
        assert(entries@.take(entries@.len() as int) =~= entries@);
        (size, in_use)
    }

    /// Remove everything no lease holds.
    pub fn clear(&self, entries: &Vec<CacheEntry>) -> (r: CleanupPlan)
        requires
            self.wf(),
            total_bytes(entries@) <= u64::MAX,
        ensures
            is_cleanup(entries@, self.leases(), 0, r),
    {
        self.cleanup(entries, 0)
    }

    /// Bring the cache down to its limit.
    pub fn trim(&self, entries: &Vec<CacheEntry>) -> (r: CleanupPlan)
        requires
            self.wf(),
            total_bytes(entries@) <= u64::MAX,
        ensures
            is_cleanup(entries@, self.leases(), self.limit() as int, r),
    {
        self.cleanup(entries, self.limit)
    }

    fn cleanup(&self, entries: &Vec<CacheEntry>, target: u64) -> (r: CleanupPlan)
        requires
            self.wf(),
            total_bytes(entries@) <= u64::MAX,
        ensures
            is_cleanup(entries@, self.leases(), target as int, r),
    {
        let ghost es = entries@;
        let ghost leases = self.leases();
        let (total, protected) = self.sums(entries);
        let mut keys: Vec<u64> = Vec::new();
        let mut k: usize = 0;
        while k < entries.len()
            invariant
                k <= entries@.len(),
                keys@ =~= used_keys(entries@).take(k as int),
            decreases entries@.len() - k,
        {
            keys.push(entries[k].used);
            k += 1;
        }
        assert(keys@ =~= used_keys(es));
        let order = sort_indices(&keys);
        let mut evict: Vec<usize> = Vec::new();
        let mut removed: u64 = 0;
        let mut i: usize = 0;
        let ghost mut sel: Set<int> = Set::empty();
        proof {
            lemma_sum_sel_empty(es, es.len() as int);
        }
        while i < order.len()
            invariant
                es == entries@,
                self.wf(),
                leases == self.leases(),
                removed <= total,
                is_order_of(used_keys(es), order@),
                i <= order@.len(),
                total == total_bytes(es),
                (evict@, removed as int) == walk(es, leases, target as int, order@.take(i as int)),
                removed as int == sum_sel(es, sel, es.len() as int),
                forall|x: int| sel.contains(x) ==> exists|j: int| 0 <= j < i && order@[j] == x,
            decreases order@.len() - i,
        {
            let e = order[i];
            assert(order@.take(i + 1).drop_last() =~= order@.take(i as int));
            assert(order@.take(i + 1).last() == e);
            let remaining = total - removed;
            if target > 0 && remaining <= target {
            } else if self.is_leased(entries[e].path.as_str()) {
            } else {
                proof {
                    assert(!sel.contains(e as int)) by {
                        if sel.contains(e as int) {
                            let j = choose|j: int| 0 <= j < i && order@[j] == e as int;
                            assert(key_before(used_keys(es), order@[j] as int, order@[i as int] as int));
                        }
                    }
                    lemma_sum_sel_insert(es, sel, es.len() as int, e as int);
                    lemma_sum_sel_bound(es, sel.insert(e as int), es.len() as int);
                    assert(es.take(es.len() as int) =~= es);
                }
                evict.push(e);
                removed = removed + entries[e].bytes;
                proof {
                    sel = sel.insert(e as int);
                }
            }
            i += 1;
        }
        assert(order@.take(order@.len() as int) =~= order@);
        let plan = CleanupPlan {
            evict,
            cleanup: Cleanup {
                removed_bytes: removed,
                remaining_bytes: total - removed,
                protected_bytes: protected,
            },
        };
        assert(is_order_of(used_keys(es), order@));
        assert(walk(es, leases, target as int, order@) == (plan.evict@, removed as int));
        plan
    }
}

proof fn lemma_total_prefix(es: Seq<CacheEntry>, n: int)
    requires
        0 <= n <= es.len(),
    ensures
        total_bytes(es.take(n)) <= total_bytes(es),
    decreases es.len(),
{
    if n < es.len() {
        lemma_total_prefix(es.drop_last(), n);
        assert(es.drop_last().take(n) =~= es.take(n));
    } else {
        assert(es.take(n) =~= es);
    }
}

proof fn lemma_leased_le_total(es: Seq<CacheEntry>, leases: Map<Seq<char>, nat>)
    ensures
        0 <= leased_bytes(es, leases) <= total_bytes(es),
    decreases es.len(),
{
    if es.len() > 0 {
        lemma_leased_le_total(es.drop_last(), leases);
    }
}

/// In a table with distinct paths, the count of `p` is that of its row.
proof fn lemma_count_in(active: Seq<(String, usize)>, p: Seq<char>)
    requires
        forall|i: int, j: int|
            0 <= i < j < active.len() ==> (#[trigger] active[i]).0@ != (#[trigger] active[j]).0@,
        forall|i: int| 0 <= i < active.len() ==> (#[trigger] active[i]).1 >= 1,
    ensures
        (forall|i: int| 0 <= i < active.len() ==> active[i].0@ != p) ==> count_in(active, p) == 0,
        forall|i: int|
            0 <= i < active.len() && active[i].0@ == p ==> count_in(active, p) == active[i].1,
    decreases active.len(),
{
    if active.len() > 0 {
        let d = active.drop_last();
        let n = active.len() - 1;
        assert forall|i: int| 0 <= i < d.len() implies d[i] == active[i] by {}
        lemma_count_in(d, p);
        assert forall|i: int|
            0 <= i < active.len() && active[i].0@ == p implies count_in(active, p)
            == active[i].1 by {
            if i < n {
                assert(active[i].0@ != active[n].0@);
                assert(d[i] == active[i]);
            }
        }
    }
}

proof fn lemma_count_in_at(active: Seq<(String, usize)>, i: int)
    requires
        0 <= i < active.len(),
        forall|a: int, b: int|
            0 <= a < b < active.len() ==> (#[trigger] active[a]).0@ != (#[trigger] active[b]).0@,
        forall|a: int| 0 <= a < active.len() ==> (#[trigger] active[a]).1 >= 1,
    ensures
        count_in(active, active[i].0@) == active[i].1,
{
    lemma_count_in(active, active[i].0@);
}

proof fn lemma_count_in_update(active: Seq<(String, usize)>, i: int, c: usize, q: Seq<char>)
    requires
        0 <= i < active.len(),
        c >= 1,
        forall|a: int, b: int|
            0 <= a < b < active.len() ==> (#[trigger] active[a]).0@ != (#[trigger] active[b]).0@,
        forall|a: int| 0 <= a < active.len() ==> (#[trigger] active[a]).1 >= 1,
    ensures
        count_in(active.update(i, (active[i].0, c)), q) == if q == active[i].0@ {
            c as nat
        } else {
            count_in(active, q)
        },
{
    let u = active.update(i, (active[i].0, c));
    assert forall|a: int| 0 <= a < u.len() implies (#[trigger] u[a]).0@ == active[a].0@ && u[a].1
        >= 1 by {}
    assert forall|a: int, b: int| 0 <= a < b < u.len() implies (#[trigger] u[a]).0@ != (
    #[trigger] u[b]).0@ by {
        assert(u[a].0@ == active[a].0@);
        assert(u[b].0@ == active[b].0@);
    }
    lemma_count_in(active, q);
    lemma_count_in(u, q);
    if q == active[i].0@ {
        assert(u[i].0@ == q);
    } else if exists|a: int| 0 <= a < active.len() && active[a].0@ == q {
        let a = choose|a: int| 0 <= a < active.len() && active[a].0@ == q;
        assert(u[a] == active[a]);
    } else {
        assert forall|b: int| 0 <= b < u.len() implies u[b].0@ != q by {
            assert(u[b].0@ == active[b].0@);
        }
    }
}

proof fn lemma_count_in_remove(active: Seq<(String, usize)>, i: int, q: Seq<char>)
    requires
        0 <= i < active.len(),
        forall|a: int, b: int|
            0 <= a < b < active.len() ==> (#[trigger] active[a]).0@ != (#[trigger] active[b]).0@,
        forall|a: int| 0 <= a < active.len() ==> (#[trigger] active[a]).1 >= 1,
    ensures
        count_in(active.remove(i), q) == if q == active[i].0@ {
            0
        } else {
            count_in(active, q)
        },
{
    let u = active.remove(i);
    assert forall|a: int, b: int| 0 <= a < b < u.len() implies (#[trigger] u[a]).0@ != (
    #[trigger] u[b]).0@ by {
        let a2 = if a < i {
            a
        } else {
            a + 1
        };
        let b2 = if b < i {
            b
        } else {
            b + 1
        };
        assert(u[a] == active[a2]);
        assert(u[b] == active[b2]);
    }
    assert forall|a: int| 0 <= a < u.len() implies (#[trigger] u[a]).1 >= 1 by {
        if a >= i {
            assert(u[a] == active[a + 1]);
        }
    }
    lemma_count_in(active, q);
    lemma_count_in(u, q);
    if q != active[i].0@ {
        if exists|a: int| 0 <= a < active.len() && active[a].0@ == q {
            let a = choose|a: int| 0 <= a < active.len() && active[a].0@ == q;
            if a < i {
                assert(u[a] == active[a]);
            } else {
                assert(u[a - 1] == active[a]);
            }
        } else {
            assert forall|b: int| 0 <= b < u.len() implies u[b].0@ != q by {
                if b >= i {
                    assert(u[b] == active[b + 1]);
                }
            }
        }
    } else {
        assert forall|b: int| 0 <= b < u.len() implies u[b].0@ != q by {
            if b >= i {
                assert(u[b] == active[b + 1]);
            }
        }
    }
}

pub open spec fn count_in_map(m: Map<Seq<char>, nat>, p: Seq<char>) -> nat {
    if m.dom().contains(p) {
        m[p]
    } else {
        0
    }
}


/// No lease holds the entry at index `x`.
pub open spec fn unleased(es: Seq<CacheEntry>, leases: Map<Seq<char>, nat>, x: usize) -> bool {
    !leases.dom().contains(es[x as int].path@)
}

proof fn lemma_walk(es: Seq<CacheEntry>, leases: Map<Seq<char>, nat>, t: int, o: Seq<usize>)
    requires
        t >= 0,
        forall|i: int| 0 <= i < o.len() ==> (#[trigger] o[i]) < es.len(),
        forall|i: int, j: int| 0 <= i < j < o.len() ==> o[i] != o[j],
    ensures
        ({
            let (ev, removed) = walk(es, leases, t, o);
            &&& forall|x: usize| #[trigger]
                ev.contains(x) ==> o.contains(x) && unleased(es, leases, x)
            &&& t == 0 ==> forall|i: int|
                0 <= i < o.len() && unleased(es, leases, o[i]) ==> #[trigger] ev.contains(o[i])
            &&& (t > 0 && exists|i: int|
                0 <= i < o.len() && unleased(es, leases, o[i]) && !#[trigger] ev.contains(o[i]))
                ==> total_bytes(es) - removed <= t
            &&& forall|i: int, j: int|
                0 <= i < j < o.len() && unleased(es, leases, o[i]) && !#[trigger] ev.contains(o[i])
                    ==> !#[trigger] ev.contains(o[j])
        }),
    decreases o.len(),
{
    if o.len() > 0 {
        let d = o.drop_last();
        let n = o.len() - 1;
        assert forall|i: int| 0 <= i < d.len() implies d[i] == o[i] by {}
        lemma_walk(es, leases, t, d);
        let (pev, prem) = walk(es, leases, t, d);
        let e = o[n];
        let stop = t > 0 && total_bytes(es) - prem <= t;
        let (ev, removed) = walk(es, leases, t, o);
        assert forall|x: usize| #[trigger] ev.contains(x) implies o.contains(x) && unleased(
            es,
            leases,
            x,
        ) by {
            if pev.contains(x) {
                let k = choose|k: int| 0 <= k < d.len() && d[k] == x;
                assert(o[k] == x);
            } else {
                assert(o[n] == x);
            }
        }
        assert forall|x: usize| pev.contains(x) implies #[trigger] ev.contains(x) by {
            let k = choose|k: int| 0 <= k < pev.len() && pev[k] == x;
            assert(ev[k] == x);
        }
        assert(!pev.contains(e)) by {
            if pev.contains(e) {
                let k = choose|k: int| 0 <= k < d.len() && d[k] == e;
                assert(o[k] == e);
            }
        }
        assert forall|i: int, j: int|
            0 <= i < j < o.len() && unleased(es, leases, o[i]) && !#[trigger] ev.contains(
                o[i],
            ) implies !#[trigger] ev.contains(o[j]) by {
            if j < n {
                assert(o[i] == d[i] && o[j] == d[j]);
                assert(!pev.contains(d[i]));
            } else {
                assert(o[i] == d[i]);
                assert(!pev.contains(d[i]));
                if !stop {
                    assert(t > 0 ==> total_bytes(es) - prem <= t);
                }
                assert(!ev.contains(e)) by {
                    if ev.contains(e) {
                        assert(!pev.contains(e));
                    }
                }
                if ev.contains(o[j]) {
                    assert(o[j] == e);
                }
            }
        }
        if t > 0 && exists|i: int|
            0 <= i < o.len() && unleased(es, leases, o[i]) && !#[trigger] ev.contains(o[i]) {
            let i = choose|i: int|
                0 <= i < o.len() && unleased(es, leases, o[i]) && !#[trigger] ev.contains(o[i]);
            if i < n {
                assert(o[i] == d[i]);
                assert(!pev.contains(d[i]));
                assert(total_bytes(es) - prem <= t);
                assert(stop);
                assert(removed == prem);
            } else {
                assert(o[i] == e);
                if !stop {
                    assert(ev == pev.push(e));
                    assert(ev[pev.len() as int] == e);
                }
                assert(removed == prem);
            }
        }
        if t == 0 {
            assert forall|i: int|
                0 <= i < o.len() && unleased(es, leases, o[i]) implies #[trigger] ev.contains(
                o[i],
            ) by {
                if i < n {
                    assert(o[i] == d[i]);
                    assert(pev.contains(d[i]));
                } else {
                    assert(ev == pev.push(e));
                    assert(ev[pev.len() as int] == e);
                }
            }
        }
    }
}

/// A cleanup never removes a leased entry. Clearing removes every entry no
/// lease holds. A trim removes entries until the cache is at or under its
/// limit, or until nothing unleased is left. What goes is least recently
/// used: each removed entry was used before every unleased entry that
/// stays (on equal times, it was listed before it).
pub proof fn law_cleanup(
    es: Seq<CacheEntry>,
    leases: Map<Seq<char>, nat>,
    target: int,
    plan: CleanupPlan,
)
    requires
        target >= 0,
        is_cleanup(es, leases, target, plan),
    ensures
        forall|k: int|
            0 <= k < plan.evict@.len() ==> (#[trigger] plan.evict@[k]) < es.len() && unleased(
                es,
                leases,
                plan.evict@[k],
            ),
        target == 0 ==> forall|x: usize|
            x < es.len() && unleased(es, leases, x) ==> #[trigger] plan.evict@.contains(x),
        target > 0 ==> (plan.cleanup.remaining_bytes <= target || forall|x: usize|
            x < es.len() && unleased(es, leases, x) ==> #[trigger] plan.evict@.contains(x)),
        forall|x: usize, y: usize|
            #[trigger] plan.evict@.contains(x) && y < es.len() && unleased(es, leases, y)
                && !#[trigger] plan.evict@.contains(y) ==> key_before(
                used_keys(es),
                x as int,
                y as int,
            ),
{
    let order = choose|order: Seq<usize>|
        #![trigger walk(es, leases, target, order)]
        is_order_of(used_keys(es), order) && {
            let (ev, removed) = walk(es, leases, target, order);
            &&& plan.evict@ == ev
            &&& plan.cleanup.removed_bytes == removed
            &&& plan.cleanup.remaining_bytes == total_bytes(es) - removed
            &&& plan.cleanup.protected_bytes == leased_bytes(es, leases)
        };
    let keys = used_keys(es);
    assert forall|i: int, j: int| 0 <= i < j < order.len() implies order[i] != order[j] by {
        assert(key_before(keys, order[i] as int, order[j] as int));
    }
    lemma_walk(es, leases, target, order);
    let ev = plan.evict@;
    assert forall|k: int| 0 <= k < ev.len() implies (#[trigger] ev[k]) < es.len() && unleased(
        es,
        leases,
        ev[k],
    ) by {
        assert(ev.contains(ev[k]));
        let m = choose|m: int| 0 <= m < order.len() && order[m] == ev[k];
    }
    if target == 0 {
        assert forall|x: usize| x < es.len() && unleased(es, leases, x) implies #[trigger] ev.contains(
            x,
        ) by {
            assert(order.contains(x));
            let i = choose|i: int| 0 <= i < order.len() && order[i] == x;
        }
    }
    if target > 0 && plan.cleanup.remaining_bytes > target {
        assert forall|x: usize| x < es.len() && unleased(es, leases, x) implies #[trigger] ev.contains(
            x,
        ) by {
            assert(order.contains(x));
            let i = choose|i: int| 0 <= i < order.len() && order[i] == x;
        }
    }
    assert forall|x: usize, y: usize|
        #[trigger] ev.contains(x) && y < es.len() && unleased(es, leases, y)
            && !#[trigger] ev.contains(y) implies key_before(keys, x as int, y as int) by {
        assert(order.contains(x));
        assert(order.contains(y));
        let i = choose|i: int| 0 <= i < order.len() && order[i] == x;
        let j = choose|j: int| 0 <= j < order.len() && order[j] == y;
        if j < i {
            assert(!ev.contains(order[i]));
        }
        assert(i != j);
    }
}

/// A new limit takes effect at the next trim: once `set_limit(limit)` has
/// run, a trim leaves at most `limit` bytes, or evicts every entry that is
/// not leased (a limit of zero evicts all of them).
pub proof fn law_new_limit_is_enforced(cache: PhotoCache, limit: u64, es: Seq<CacheEntry>, plan: CleanupPlan)
    requires
        cache.limit() == limit,
        is_cleanup(es, cache.leases(), cache.limit() as int, plan),
    ensures
        plan.cleanup.remaining_bytes <= limit || forall|x: usize|
            x < es.len() && unleased(es, cache.leases(), x) ==> #[trigger] plan.evict@.contains(x),
{
    law_cleanup(es, cache.leases(), limit as int, plan);
}

/// Taking a lease and giving it back leaves the leases as they were.
pub proof fn law_lease_release(m: Map<Seq<char>, nat>, p: Seq<char>)
    requires
        forall|q: Seq<char>| #[trigger] m.dom().contains(q) ==> m[q] >= 1,
    ensures
        ({
            let c = count_in_map(m, p);
            let m1 = m.insert(p, c + 1);
            let c1 = count_in_map(m1, p);
            (if c1 > 1 {
                m1.insert(p, (c1 - 1) as nat)
            } else {
                m1.remove(p)
            }) == m
        }),
{
    let c = count_in_map(m, p);
    let m1 = m.insert(p, c + 1);
    if c >= 1 {
        assert(m1.insert(p, c) =~= m);
    } else {
        assert(m1.remove(p) =~= m);
    }
}

// ---------------------------------------------------------------------------
// Reading an entry off the disk
// ---------------------------------------------------------------------------

/// One file found in an entry directory: its name, length and modification
/// time (any clock that orders the times).
pub struct CachedFile {
    pub name: String,
    pub bytes: u64,
    pub modified: u64,
}

/// `.last-used`: the marker whose time a lease refreshes.
pub open spec fn last_used_marker() -> Seq<char> {
    seq!['.', 'l', 'a', 's', 't', '-', 'u', 's', 'e', 'd']
}

/// The bytes of all the files, marker included.
pub open spec fn files_bytes(fs: Seq<CachedFile>) -> int
    decreases fs.len(),
{
    if fs.len() == 0 {
        0
    } else {
        files_bytes(fs.drop_last()) + fs.last().bytes
    }
}

/// The time of the (last listed) `.last-used` marker, if there is one.
pub open spec fn marker_time(fs: Seq<CachedFile>) -> Option<u64>
    decreases fs.len(),
{
    if fs.len() == 0 {
        None
    } else if fs.last().name@ == last_used_marker() {
        Some(fs.last().modified)
    } else {
        marker_time(fs.drop_last())
    }
}

/// The latest modification among the files that are not the marker (0, the
/// epoch, for none).
pub open spec fn newest_write(fs: Seq<CachedFile>) -> u64
    decreases fs.len(),
{
    if fs.len() == 0 {
        0
    } else {
        let prev = newest_write(fs.drop_last());
        if fs.last().name@ != last_used_marker() && fs.last().modified > prev {
            fs.last().modified
        } else {
            prev
        }
    }
}

/// When an entry was last used: its marker's time where it has one, else
/// the newest write among its files.
pub open spec fn entry_used(fs: Seq<CachedFile>) -> u64 {
    match marker_time(fs) {
        Some(t) => t,
        None => newest_write(fs),
    }
}

proof fn lemma_files_bytes_prefix(fs: Seq<CachedFile>, n: int)
    requires
        0 <= n <= fs.len(),
    ensures
        0 <= files_bytes(fs.take(n)) <= files_bytes(fs),
    decreases fs.len() - n,
{
    if n < fs.len() {
        lemma_files_bytes_prefix(fs, n + 1);
        assert(fs.take(n + 1).drop_last() =~= fs.take(n));
    } else {
        assert(fs.take(n) =~= fs);
    }
    lemma_files_bytes_nonneg(fs.take(n));
}

proof fn lemma_files_bytes_nonneg(fs: Seq<CachedFile>)
    ensures
        files_bytes(fs) >= 0,
    decreases fs.len(),
{
    if fs.len() > 0 {
        lemma_files_bytes_nonneg(fs.drop_last());
    }
}

/// The cache entry for a group directory at `path` holding `files`: their
/// bytes, and when it was last used.
pub fn summarize_entry(path: String, files: &Vec<CachedFile>) -> (r: CacheEntry)
    requires
        files_bytes(files@) <= u64::MAX,
    ensures
        r.path@ == path@,
        r.bytes == files_bytes(files@),
        r.used == entry_used(files@),
{
    let marker: [char; 10] = ['.', 'l', 'a', 's', 't', '-', 'u', 's', 'e', 'd'];
    assert(marker@ =~= last_used_marker());
    let mut bytes: u64 = 0;
    let mut newest: u64 = 0;
    let mut accessed: Option<u64> = None;
    let mut i: usize = 0;
    while i < files.len()
        invariant
            i <= files@.len(),
            marker@ == last_used_marker(),
            files_bytes(files@) <= u64::MAX,
            bytes == files_bytes(files@.take(i as int)),
            newest == newest_write(files@.take(i as int)),
            accessed == marker_time(files@.take(i as int)),
        decreases files@.len() - i,
    {
        assert(files@.take(i + 1).drop_last() =~= files@.take(i as int));
        proof {
            lemma_files_bytes_prefix(files@, i + 1);
        }
        let f = &files[i];
        let is_marker = crate::text::eq_exec(&chars_of(f.name.as_str()), &marker);
        if is_marker {
            accessed = Some(f.modified);
        } else if f.modified > newest {
            newest = f.modified;
        }
        bytes = bytes + f.bytes;
        i += 1;
    }
    assert(files@.take(files@.len() as int) =~= files@);
    let used = match accessed {
        Some(t) => t,
        None => newest,
    };
    CacheEntry { path, bytes, used }
}

} // verus!
