//! Tracking which paths of a watched folder changed since the folder was
//! last read: either some paths, or "everything" when the watcher lost
//! track. Paths that `std::path` holds equal (equal components) are one
//! change, and the path recorded first stands for it.
use crate::normal_form::{change_key, normal_form};
use crate::unix_path::UnixPath;
use rustc_hash::FxHashSet;
use vstd::prelude::*;

verus! {

/// `rustc_hash::FxBuildHasher`, the hasher of `FxHashSet`.
#[verifier::external_type_specification]
#[verifier::external_body]
pub struct ExFxBuildHasher(rustc_hash::FxBuildHasher);

/// The paths, by their text, that an `FxHashSet<String>` holds.
pub uninterp spec fn path_set(set: FxHashSet<String>) -> Set<Seq<char>>;

/// `FxHashSet::default()`: a new set holds nothing.
#[verifier::external_body]
fn path_set_new() -> (r: FxHashSet<String>)
    ensures
        path_set(r) == Set::<Seq<char>>::empty(),
{
    FxHashSet::default()
}

/// `HashSet::is_empty`: true exactly when the set holds nothing.
#[verifier::external_body]
fn path_set_is_empty(set: &FxHashSet<String>) -> (r: bool)
    ensures
        r == (path_set(*set) == Set::<Seq<char>>::empty()),
{
    set.is_empty()
}

/// `HashSet::insert`: afterwards the set also holds `path` (strings are
/// equal when their text is); the result tells whether it was new.
#[verifier::external_body]
fn path_set_insert(set: &mut FxHashSet<String>, path: String) -> (r: bool)
    ensures
        path_set(*final(set)) == path_set(*old(set)).insert(path@),
        r == !path_set(*old(set)).contains(path@),
{
    set.insert(path)
}

/// The texts of some strings.
pub open spec fn texts(v: Seq<String>) -> Seq<Seq<char>> {
    v.map_values(|s: String| s@)
}

/// No two of the recorded paths are equal as paths.
pub open spec fn distinct_keys(rec: Seq<Seq<char>>) -> bool {
    forall|i: int, j: int|
        0 <= i < rec.len() && 0 <= j < rec.len() && i != j ==> change_key(#[trigger] rec[i])
            != change_key(#[trigger] rec[j])
}

/// The recorded paths by their normal form.
pub open spec fn record_map(rec: Seq<Seq<char>>) -> Map<Seq<char>, Seq<char>>
    decreases rec.len(),
{
    if rec.len() == 0 {
        Map::empty()
    } else {
        record_map(rec.drop_last()).insert(change_key(rec.last()), rec.last())
    }
}

pub proof fn lemma_record_map(rec: Seq<Seq<char>>)
    requires
        distinct_keys(rec),
    ensures
        forall|i: int|
            0 <= i < rec.len() ==> record_map(rec).contains_key(change_key(#[trigger] rec[i]))
                && record_map(rec)[change_key(rec[i])] == rec[i],
        forall|k: Seq<char>|
            #[trigger] record_map(rec).contains_key(k) ==> exists|i: int|
                0 <= i < rec.len() && change_key(#[trigger] rec[i]) == k,
        forall|k: Seq<char>|
            #[trigger] record_map(rec).contains_key(k) ==> change_key(record_map(rec)[k]) == k,
        record_map(rec).values() == rec.to_set(),
    decreases rec.len(),
{
    let m = record_map(rec);
    if rec.len() > 0 {
        let init = rec.drop_last();
        assert(distinct_keys(init)) by {
            assert forall|i: int, j: int|
                0 <= i < init.len() && 0 <= j < init.len() && i != j implies change_key(
                #[trigger] init[i],
            ) != change_key(#[trigger] init[j]) by {
                assert(init[i] == rec[i] && init[j] == rec[j]);
            }
        }
        lemma_record_map(init);
        let n = rec.len() - 1;
        assert forall|i: int| 0 <= i < rec.len() implies m.contains_key(
            change_key(#[trigger] rec[i]),
        ) && m[change_key(rec[i])] == rec[i] by {
            if i < n {
                assert(init[i] == rec[i]);
                assert(change_key(rec[i]) != change_key(rec[n]));
            }
        }
        assert forall|k: Seq<char>| #[trigger] m.contains_key(k) implies exists|i: int|
            0 <= i < rec.len() && change_key(#[trigger] rec[i]) == k by {
            if k != change_key(rec[n]) {
                let i = choose|i: int| 0 <= i < init.len() && change_key(#[trigger] init[i]) == k;
                assert(rec[i] == init[i]);
            }
        }
    }
    assert forall|k: Seq<char>| #[trigger] m.contains_key(k) implies change_key(m[k]) == k by {
        let i = choose|i: int| 0 <= i < rec.len() && change_key(#[trigger] rec[i]) == k;
    }
    assert forall|v: Seq<char>| m.values().contains(v) <==> rec.to_set().contains(v) by {
        if m.values().contains(v) {
            let k = choose|k: Seq<char>| #[trigger] m.contains_key(k) && m[k] == v;
            let i = choose|i: int| 0 <= i < rec.len() && change_key(#[trigger] rec[i]) == k;
            assert(rec.contains(v));
        }
        if rec.to_set().contains(v) {
            let i = choose|i: int| 0 <= i < rec.len() && rec[i] == v;
            assert(m.contains_key(change_key(rec[i])));
        }
    }
    assert(m.values() =~= rec.to_set());
}

/// One more path applied over `b`: kept out when `b` already has it.
pub proof fn lemma_union_step(
    r: Map<Seq<char>, Seq<char>>,
    b: Map<Seq<char>, Seq<char>>,
    k: Seq<char>,
    x: Seq<char>,
)
    requires
        !r.contains_key(k),
    ensures
        r.union_prefer_right(b).contains_key(k) ==> r.insert(k, x).union_prefer_right(b)
            == r.union_prefer_right(b),
        !r.union_prefer_right(b).contains_key(k) ==> r.insert(k, x).union_prefer_right(b)
            == r.union_prefer_right(b).insert(k, x),
{
    assert(r.union_prefer_right(b).contains_key(k) ==> r.insert(k, x).union_prefer_right(b)
        =~= r.union_prefer_right(b));
    assert(!r.union_prefer_right(b).contains_key(k) ==> r.insert(k, x).union_prefer_right(b)
        =~= r.union_prefer_right(b).insert(k, x));
}

/// The changes of a folder: whether all of it is to be read again, and
/// otherwise which paths changed, each kept as it was first recorded.
pub struct FolderChanges {
    all_dirty: bool,
    keys: FxHashSet<String>,
    recorded: Vec<String>,
    changes: Ghost<Map<Seq<char>, Seq<char>>>,
}

/// Changes as the contracts speak of them: the "all dirty" flag, and the
/// changed paths, each under its normal form.
pub type ChangesView = (bool, Map<Seq<char>, Seq<char>>);

/// A view that `FolderChanges` can have: all dirty means no path is
/// listed, and each path is listed under its own normal form.
pub open spec fn normal(v: ChangesView) -> bool {
    &&& v.0 ==> v.1 == Map::<Seq<char>, Seq<char>>::empty()
    &&& forall|k: Seq<char>| #[trigger] v.1.contains_key(k) ==> change_key(v.1[k]) == k
}

/// What `dirty_path` makes of changes `v` when `path` changed: nothing
/// new when all is dirty or a path equal to it is listed.
pub open spec fn spec_dirty_path(v: ChangesView, path: Seq<char>) -> ChangesView {
    if v.0 || v.1.contains_key(change_key(path)) {
        v
    } else {
        (false, v.1.insert(change_key(path), path))
    }
}

/// What `apply_to` leaves in `other` when `changes` is applied to it: the
/// paths of both, where `other` keeps its own path for a change that both
/// list.
pub open spec fn merge(changes: ChangesView, other: ChangesView) -> ChangesView {
    if other.0 || changes.0 {
        (true, Map::<Seq<char>, Seq<char>>::empty())
    } else {
        (false, changes.1.union_prefer_right(other.1))
    }
}

impl View for FolderChanges {
    type V = ChangesView;

    closed spec fn view(&self) -> ChangesView {
        (self.all_dirty, self.changes@)
    }
}

impl FolderChanges {
    #[verifier::type_invariant]
    spec fn inv(self) -> bool {
        &&& normal((self.all_dirty, self.changes@))
        &&& self.all_dirty ==> self.recorded@.len() == 0
        &&& path_set(self.keys) == self.changes@.dom()
        &&& distinct_keys(texts(self.recorded@))
        &&& record_map(texts(self.recorded@)) == self.changes@
    }

    /// Nothing changed.
    pub fn no_changes() -> (r: Self)
        ensures
            r@ == (false, Map::<Seq<char>, Seq<char>>::empty()),
            normal(r@),
    {
        let recorded: Vec<String> = Vec::new();
        proof {
            assert(texts(recorded@) == Seq::<Seq<char>>::empty());
            assert(Map::<Seq<char>, Seq<char>>::empty().dom() == Set::<Seq<char>>::empty());
        }
        FolderChanges {
            all_dirty: false,
            keys: path_set_new(),
            recorded,
            changes: Ghost(Map::empty()),
        }
    }

    /// Everything is to be read again.
    pub fn all_dirty() -> (r: Self)
        ensures
            r@ == (true, Map::<Seq<char>, Seq<char>>::empty()),
            normal(r@),
    {
        let recorded: Vec<String> = Vec::new();
        proof {
            assert(texts(recorded@) == Seq::<Seq<char>>::empty());
            assert(Map::<Seq<char>, Seq<char>>::empty().dom() == Set::<Seq<char>>::empty());
        }
        FolderChanges {
            all_dirty: true,
            keys: path_set_new(),
            recorded,
            changes: Ghost(Map::empty()),
        }
    }

    /// Nothing changed.
    pub fn is_empty(&self) -> (r: bool)
        ensures
            r == (!self@.0 && self@.1 == Map::<Seq<char>, Seq<char>>::empty()),
            normal(self@),
    {
        proof {
            use_type_invariant(self);
            if self.changes@.dom() == Set::<Seq<char>>::empty() {
                assert(self.changes@ =~= Map::<Seq<char>, Seq<char>>::empty());
            }
        }
        !self.all_dirty && path_set_is_empty(&self.keys)
    }

    /// Moves the changes out, leaving none.
    fn move_out(&mut self) -> (r: FolderChanges)
        ensures
            r == *old(self),
            final(self)@ == (false, Map::<Seq<char>, Seq<char>>::empty()),
    {
        let mut r = FolderChanges::no_changes();
        std::mem::swap(self, &mut r);
        r
    }

    /// Records that `path` changed. Nothing new is recorded when
    /// everything is already dirty, or when a path equal to it (with the
    /// same components) is already recorded.
    pub fn dirty_path(&mut self, path: &UnixPath)
        ensures
            final(self)@ == spec_dirty_path(old(self)@, path@),
            normal(old(self)@),
            normal(final(self)@),
    {
        proof {
            use_type_invariant(&*self);
        }
        if self.all_dirty {
            return;
        }
        let key = normal_form(path);
        let text = path.as_string();
        let old = self.move_out();
        proof {
            use_type_invariant(&old);
        }
        let FolderChanges { all_dirty: _, mut keys, mut recorded, changes } = old;
        let ghost m0 = changes@;
        let ghost rec0 = texts(recorded@);
        let newly = path_set_insert(&mut keys, key);
        let ghost mut m = m0;
        if newly {
            recorded.push(text);
            proof {
                lemma_record_map(rec0);
                m = m0.insert(key@, path@);
                assert(texts(recorded@) == rec0.push(path@));
                assert(texts(recorded@).drop_last() == rec0);
                assert(distinct_keys(texts(recorded@))) by {
                    let t = texts(recorded@);
                    assert forall|i: int, j: int|
                        0 <= i < t.len() && 0 <= j < t.len() && i != j implies change_key(
                        #[trigger] t[i],
                    ) != change_key(#[trigger] t[j]) by {
                        if i < rec0.len() {
                            assert(t[i] == rec0[i]);
                        }
                        if j < rec0.len() {
                            assert(t[j] == rec0[j]);
                        }
                    }
                }
                assert(m.dom() == m0.dom().insert(key@));
                lemma_record_map(texts(recorded@));
            }
        } else {
            proof {
                assert(path_set(keys) =~= m0.dom());
            }
        }
        *self = FolderChanges { all_dirty: false, keys, recorded, changes: Ghost(m) };
    }

    /// Hands out the changes, each path as it was first recorded, and
    /// leaves none behind.
    pub fn take(&mut self) -> (r: (bool, FxHashSet<String>))
        ensures
            r.0 == old(self)@.0,
            path_set(r.1) == old(self)@.1.values(),
            r.0 ==> path_set(r.1) == Set::<Seq<char>>::empty(),
            final(self)@ == (false, Map::<Seq<char>, Seq<char>>::empty()),
            normal(old(self)@),
            normal(final(self)@),
    {
        proof {
            use_type_invariant(&*self);
        }
        let old = self.move_out();
        proof {
            use_type_invariant(&old);
        }
        let FolderChanges { all_dirty, keys: _, recorded, changes } = old;
        let ghost rec = texts(recorded@);
        let mut out = path_set_new();
        let mut i: usize = 0;
        while i < recorded.len()
            invariant
                i <= recorded.len(),
                rec == texts(recorded@),
                path_set(out) == rec.take(i as int).to_set(),
            decreases recorded.len() - i,
        {
            let ghost before = path_set(out);
            path_set_insert(&mut out, recorded[i].clone());
            proof {
                assert(rec.take(i as int + 1) == rec.take(i as int) + seq![rec[i as int]]);
                Seq::<Seq<char>>::lemma_to_set_insert_commutes(rec.take(i as int), rec[i as int]);
            }
            i = i + 1;
        }
        proof {
            assert(rec.take(rec.len() as int) == rec);
            lemma_record_map(rec);
            if all_dirty {
                assert(rec.to_set() =~= Set::<Seq<char>>::empty());
            }
        }
        (all_dirty, out)
    }

    /// Marks everything to be read again.
    pub fn dirty_all(&mut self)
        ensures
            final(self)@ == (true, Map::<Seq<char>, Seq<char>>::empty()),
            normal(final(self)@),
    {
        *self = FolderChanges::all_dirty();
    }

    /// Adds these changes to `other`.
    pub fn apply_to(self, other: &mut FolderChanges)
        ensures
            final(other)@ == merge(self@, old(other)@),
            normal(self@),
            normal(old(other)@),
            normal(final(other)@),
    {
        proof {
            use_type_invariant(&self);
            use_type_invariant(&*other);
        }
        if other.all_dirty {
            return;
        }
        let ghost a = self@;
        let ghost b = other@;
        let FolderChanges { all_dirty, keys: _, recorded, changes: _ } = self;
        if all_dirty {
            *other = FolderChanges::all_dirty();
            return;
        }
        let o = other.move_out();
        proof {
            use_type_invariant(&o);
        }
        let FolderChanges { all_dirty: _, mut keys, recorded: mut recs, changes } = o;
        let ghost srec = texts(recorded@);
        proof {
            lemma_record_map(srec);
            assert(record_map(srec.take(0)) == Map::<Seq<char>, Seq<char>>::empty());
            assert(Map::<Seq<char>, Seq<char>>::empty().union_prefer_right(b.1) =~= b.1);
        }
        let ghost mut m = changes@;
        let mut i: usize = 0;
        while i < recorded.len()
            invariant
                i <= recorded.len(),
                srec == texts(recorded@),
                distinct_keys(srec),
                record_map(srec) == a.1,
                normal(b),
                path_set(keys) == m.dom(),
                distinct_keys(texts(recs@)),
                record_map(texts(recs@)) == m,
                m == record_map(srec.take(i as int)).union_prefer_right(b.1),
            decreases recorded.len() - i,
        {
            let r = &recorded[i];
            let key = normal_form(&UnixPath::new(r.as_str()));
            let ghost x = srec[i as int];
            let ghost k = change_key(x);
            let ghost r0 = record_map(srec.take(i as int));
            let ghost rec0 = texts(recs@);
            let ghost m0 = m;
            proof {
                assert(x == r@);
                let t = srec.take(i as int);
                assert(distinct_keys(t)) by {
                    assert forall|p: int, q: int|
                        0 <= p < t.len() && 0 <= q < t.len() && p != q implies change_key(
                        #[trigger] t[p],
                    ) != change_key(#[trigger] t[q]) by {
                        assert(t[p] == srec[p] && t[q] == srec[q]);
                    }
                }
                lemma_record_map(t);
                assert(!r0.contains_key(k)) by {
                    if r0.contains_key(k) {
                        let p = choose|p: int| 0 <= p < t.len() && change_key(#[trigger] t[p]) == k;
                        assert(t[p] == srec[p]);
                    }
                }
                assert(srec.take(i as int + 1).drop_last() == t);
                assert(srec.take(i as int + 1).last() == x);
                assert(record_map(srec.take(i as int + 1)) == r0.insert(k, x));
                lemma_union_step(r0, b.1, k, x);
                lemma_record_map(rec0);
            }
            let newly = path_set_insert(&mut keys, key);
            if newly {
                recs.push(r.clone());
                proof {
                    m = m0.insert(k, x);
                    assert(texts(recs@) == rec0.push(x));
                    assert(texts(recs@).drop_last() == rec0);
                    assert(distinct_keys(texts(recs@))) by {
                        let t = texts(recs@);
                        assert forall|p: int, q: int|
                            0 <= p < t.len() && 0 <= q < t.len() && p != q implies change_key(
                            #[trigger] t[p],
                        ) != change_key(#[trigger] t[q]) by {
                            if p < rec0.len() {
                                assert(t[p] == rec0[p]);
                            }
                            if q < rec0.len() {
                                assert(t[q] == rec0[q]);
                            }
                        }
                    }
                    assert(m.dom() == m0.dom().insert(k));
                }
            }
            i = i + 1;
        }
        proof {
            assert(srec.take(srec.len() as int) == srec);
            lemma_record_map(texts(recs@));
        }
        *other = FolderChanges { all_dirty: false, keys, recorded: recs, changes: Ghost(m) };
    }
}

/// What merging leaves is again a view that `FolderChanges` can have, and
/// no change is lost: each changed path (by its normal form) is still
/// listed, with `other`'s own path where both list it, unless all is
/// dirty.
pub proof fn law_merge_keeps_changes(a: ChangesView, b: ChangesView)
    requires
        normal(a),
        normal(b),
    ensures
        normal(merge(a, b)),
        merge(a, b).0 == (a.0 || b.0),
        !merge(a, b).0 ==> merge(a, b).1.dom() == a.1.dom().union(b.1.dom()),
        !merge(a, b).0 ==> forall|k: Seq<char>| #[trigger] b.1.contains_key(k) ==> merge(a, b).1[k]
            == b.1[k],
{
    if !merge(a, b).0 {
        assert(merge(a, b).1.dom() =~= a.1.dom().union(b.1.dom()));
    }
}

/// Applying `a` to `b` lists the same changes as applying `b` to `a`:
/// the same paths, compared as paths. (Where both list a change, each
/// side keeps its own recorded text for it.)
pub proof fn law_merge_commutative(a: ChangesView, b: ChangesView)
    ensures
        merge(a, b).0 == merge(b, a).0,
        merge(a, b).1.dom() == merge(b, a).1.dom(),
{
    assert(merge(a, b).1.dom() =~= merge(b, a).1.dom());
}

/// Applying `a` to the result of applying `b` to `c` is applying the
/// result of applying `a` to `b` to `c`.
pub proof fn law_merge_associative(a: ChangesView, b: ChangesView, c: ChangesView)
    ensures
        merge(a, merge(b, c)) == merge(merge(a, b), c),
{
    assert(a.1.union_prefer_right(b.1.union_prefer_right(c.1)) =~= a.1.union_prefer_right(
        b.1,
    ).union_prefer_right(c.1));
}

/// "No changes" changes nothing, applied or applied to.
pub proof fn law_no_changes_is_neutral(a: ChangesView)
    requires
        normal(a),
    ensures
        merge((false, Map::<Seq<char>, Seq<char>>::empty()), a) == a,
        merge(a, (false, Map::<Seq<char>, Seq<char>>::empty())) == a,
{
    assert(Map::<Seq<char>, Seq<char>>::empty().union_prefer_right(a.1) =~= a.1);
    assert(a.1.union_prefer_right(Map::<Seq<char>, Seq<char>>::empty()) =~= a.1);
}

/// "All dirty" wins over any other changes.
pub proof fn law_all_dirty_absorbs(a: ChangesView)
    ensures
        merge((true, Map::<Seq<char>, Seq<char>>::empty()), a) == (true, Map::<
            Seq<char>,
            Seq<char>,
        >::empty()),
        merge(a, (true, Map::<Seq<char>, Seq<char>>::empty())) == (true, Map::<
            Seq<char>,
            Seq<char>,
        >::empty()),
{
}

/// Applying the same changes twice is applying them once.
pub proof fn law_merge_idempotent(a: ChangesView)
    requires
        normal(a),
    ensures
        merge(a, a) == a,
{
    assert(a.1.union_prefer_right(a.1) =~= a.1);
}

/// `dirty_path` for each path of `ps` in turn.
pub open spec fn replay(v: ChangesView, ps: Seq<Seq<char>>) -> ChangesView
    decreases ps.len(),
{
    if ps.len() == 0 {
        v
    } else {
        spec_dirty_path(replay(v, ps.drop_last()), ps.last())
    }
}

/// Replaying paths that are pairwise different as paths over changes that
/// are not all dirty lists them, where not already listed.
pub proof fn lemma_replay(v: ChangesView, ps: Seq<Seq<char>>)
    requires
        !v.0,
        distinct_keys(ps),
    ensures
        replay(v, ps) == (false, record_map(ps).union_prefer_right(v.1)),
    decreases ps.len(),
{
    if ps.len() == 0 {
        assert(Map::<Seq<char>, Seq<char>>::empty().union_prefer_right(v.1) =~= v.1);
    } else {
        let init = ps.drop_last();
        assert(distinct_keys(init)) by {
            assert forall|i: int, j: int|
                0 <= i < init.len() && 0 <= j < init.len() && i != j implies change_key(
                #[trigger] init[i],
            ) != change_key(#[trigger] init[j]) by {
                assert(init[i] == ps[i] && init[j] == ps[j]);
            }
        }
        lemma_replay(v, init);
        lemma_record_map(init);
        let k = change_key(ps.last());
        assert(!record_map(init).contains_key(k)) by {
            if record_map(init).contains_key(k) {
                let i = choose|i: int| 0 <= i < init.len() && change_key(#[trigger] init[i]) == k;
                assert(init[i] == ps[i]);
            }
        }
        lemma_union_step(record_map(init), v.1, k, ps.last());
    }
}

pub proof fn lemma_replay_all_dirty(v: ChangesView, ps: Seq<Seq<char>>)
    requires
        v.0,
    ensures
        replay(v, ps) == v,
    decreases ps.len(),
{
    if ps.len() > 0 {
        lemma_replay_all_dirty(v, ps.drop_last());
    }
}

/// Applying changes to `other` is what `dirty_all` does to it when they
/// are all dirty, and otherwise what calling `dirty_path` on it for each
/// listed path does, in any order.
pub proof fn law_apply_is_replay(changes: ChangesView, other: ChangesView, ps: Seq<Seq<char>>)
    requires
        normal(changes),
        normal(other),
        ps.no_duplicates(),
        ps.to_set() == changes.1.values(),
    ensures
        merge(changes, other) == if changes.0 {
            if other.0 {
                other
            } else {
                (true, Map::<Seq<char>, Seq<char>>::empty())
            }
        } else {
            replay(other, ps)
        },
{
    let m = changes.1;
    assert forall|i: int| 0 <= i < ps.len() implies m.contains_key(change_key(#[trigger] ps[i]))
        && m[change_key(ps[i])] == ps[i] by {
        assert(ps.to_set().contains(ps[i]));
        let k = choose|k: Seq<char>| #[trigger] m.contains_key(k) && m[k] == ps[i];
    }
    assert(distinct_keys(ps)) by {
        assert forall|i: int, j: int|
            0 <= i < ps.len() && 0 <= j < ps.len() && i != j implies change_key(#[trigger] ps[i])
            != change_key(#[trigger] ps[j]) by {
            assert(ps[i] != ps[j]);
        }
    }
    if !changes.0 && !other.0 {
        lemma_replay(other, ps);
        lemma_record_map(ps);
        assert forall|k: Seq<char>| #[trigger] m.contains_key(k) implies record_map(ps).contains_key(k)
            && record_map(ps)[k] == m[k] by {
            assert(m.values().contains(m[k]));
            let i = choose|i: int| 0 <= i < ps.len() && ps[i] == m[k];
        }
        assert(record_map(ps) =~= m);
    } else if !changes.0 {
        lemma_replay_all_dirty(other, ps);
    }
}

} // verus!
