//! A name-keyed, sorted collection of resources enforcing the store's
//! concurrency control: unique names, stable uids, resource-version checks
//! and generation bumps on desired-state changes.

use vstd::prelude::*;

use crate::resources::{DeepClone, Meta, Metadata, MetadataView, OwnerReferenceView, Pod, PodSpecView, PodView, Time};
use crate::state::Revision;
use crate::utils::{lemma_lex_lt_connected, lemma_lex_lt_irrefl, lemma_lex_lt_trans, lex_lt,
    str_eq, str_lt};

verus! {

/// The name of a resource view.
pub open spec fn res_name<T: Meta>(v: T::V) -> Seq<char> {
    T::md_of(v).name
}

/// Some resource in the sequence carries this name.
pub open spec fn has_name<T: Meta>(s: Seq<T::V>, n: Seq<char>) -> bool {
    exists|i: int| 0 <= i < s.len() && res_name::<T>(#[trigger] s[i]) == n
}

/// The index of the resource carrying this name; meaningful only when the
/// sequence is sorted and the name is present.
pub open spec fn idx_of<T: Meta>(s: Seq<T::V>, n: Seq<char>) -> int {
    choose|i: int| 0 <= i < s.len() && res_name::<T>(#[trigger] s[i]) == n
}

/// Where a resource with this name belongs in the sorted sequence: the
/// number of entries whose names come strictly before it.
pub open spec fn ins_pos<T: Meta>(s: Seq<T::V>, n: Seq<char>) -> int
    decreases s.len(),
{
    if s.len() == 0 {
        0
    } else if lex_lt(res_name::<T>(s[0]), n) {
        1 + ins_pos::<T>(s.drop_first(), n)
    } else {
        0
    }
}

/// Strictly sorted by name, which also makes names unique.
pub open spec fn sorted<T: Meta>(s: Seq<T::V>) -> bool {
    forall|i: int, j: int|
        0 <= i < j < s.len() ==> lex_lt(
            res_name::<T>(#[trigger] s[i]),
            res_name::<T>(#[trigger] s[j]),
        )
}

/// A resource view with its resource version replaced.
pub open spec fn stamped<T: Meta>(v: T::V, rev_str: Seq<char>) -> T::V {
    T::with_md(v, MetadataView { resource_version: rev_str, ..T::md_of(v) })
}

/// A resource view with its resource version and generation replaced.
pub open spec fn stamped_gen<T: Meta>(v: T::V, rev_str: Seq<char>, g: u64) -> T::V {
    T::with_md(v, MetadataView { resource_version: rev_str, generation: g, ..T::md_of(v) })
}

/// The generation after a desired-state change; it saturates at the top of
/// the counter rather than wrap.
pub open spec fn bumped(g: u64) -> u64 {
    if g == u64::MAX {
        g
    } else {
        (g + 1) as u64
    }
}

/// What `Resources::insert` does: the exact relation between the collection
/// before (`s0`) and after (`s1`) inserting the resource view `v` at the
/// revision whose string form is `rev_str`, with `r` saying whether the
/// write was accepted.
///
/// - A fresh name is stamped with the revision and placed at its sorted
///   position.
/// - A name held by a resource with a different uid is a conflict.
/// - A write carrying a non-empty resource version that disagrees with the
///   stored one is stale.
/// - An accepted overwrite is stamped with the revision and keeps the stored
///   generation, bumped exactly when the desired-state part changed.
/// Whether inserting the resource view `v` is accepted: the name is fresh,
/// or the stored resource has the same uid and the write carries either no
/// resource version or the stored one.
pub open spec fn insert_ok<T: Meta>(s0: Seq<T::V>, v: T::V) -> bool {
    let n = res_name::<T>(v);
    if !has_name::<T>(s0, n) {
        true
    } else {
        let ex = s0[idx_of::<T>(s0, n)];
        T::md_of(v).uid == T::md_of(ex).uid && (T::md_of(v).resource_version.len() == 0
            || T::md_of(v).resource_version == T::md_of(ex).resource_version)
    }
}

/// The collection after inserting the resource view `v` at the revision
/// whose string form is `rev_str`; a rejected write leaves it unchanged.
///
/// - A fresh name is stamped with the revision and placed at its sorted
///   position.
/// - An accepted overwrite is stamped with the revision and keeps the stored
///   generation, bumped exactly when the desired-state part changed.
pub open spec fn inserted<T: Meta>(s0: Seq<T::V>, v: T::V, rev_str: Seq<char>) -> Seq<T::V> {
    let n = res_name::<T>(v);
    if !has_name::<T>(s0, n) {
        s0.insert(ins_pos::<T>(s0, n), stamped::<T>(v, rev_str))
    } else if !insert_ok::<T>(s0, v) {
        s0
    } else {
        let i = idx_of::<T>(s0, n);
        let ex = s0[i];
        let g = if T::body_differs(v, ex) {
            bumped(T::md_of(ex).generation)
        } else {
            T::md_of(ex).generation
        };
        s0.update(i, stamped_gen::<T>(v, rev_str, g))
    }
}

/// What `Resources::insert` does: the write is accepted exactly when
/// [`insert_ok`] says so, and the collection afterwards is [`inserted`].
/// A conflicting uid or a stale resource version leaves it unchanged.
pub open spec fn insert_effect<T: Meta>(
    s0: Seq<T::V>,
    v: T::V,
    rev_str: Seq<char>,
    r: Result<(), ()>,
    s1: Seq<T::V>,
) -> bool {
    &&& (r is Ok) == insert_ok::<T>(s0, v)
    &&& s1 == inserted::<T>(s0, v, rev_str)
}

/// In a sorted sequence the index of a name is unique.
proof fn lemma_idx_unique<T: Meta>(s: Seq<T::V>, n: Seq<char>, i: int)
    requires
        sorted::<T>(s),
        0 <= i < s.len(),
        res_name::<T>(s[i]) == n,
    ensures
        idx_of::<T>(s, n) == i,
        has_name::<T>(s, n),
{
    let j = idx_of::<T>(s, n);
    assert(0 <= j < s.len() && res_name::<T>(s[j]) == n);
    if i < j {
        lemma_lex_lt_irrefl(n);
    } else if j < i {
        lemma_lex_lt_irrefl(n);
    }
}

/// The insertion position splits the sorted sequence into names strictly
/// before and names not before the new one.
proof fn lemma_ins_pos<T: Meta>(s: Seq<T::V>, n: Seq<char>)
    requires
        sorted::<T>(s),
    ensures
        0 <= ins_pos::<T>(s, n) <= s.len(),
        forall|j: int|
            0 <= j < ins_pos::<T>(s, n) ==> lex_lt(res_name::<T>(#[trigger] s[j]), n),
        forall|j: int|
            ins_pos::<T>(s, n) <= j < s.len() ==> !lex_lt(res_name::<T>(#[trigger] s[j]), n),
    decreases s.len(),
{
    if s.len() > 0 {
        let s1 = s.drop_first();
        assert(sorted::<T>(s1)) by {
            assert(forall|i: int, j: int|
                0 <= i < j < s1.len() ==> #[trigger] s1[i] == s[i + 1] && #[trigger] s1[j] == s[
                    j + 1
                ]);
        }
        lemma_ins_pos::<T>(s1, n);
        if lex_lt(res_name::<T>(s[0]), n) {
            let p = 1 + ins_pos::<T>(s1, n);
            assert forall|j: int| 0 <= j < p implies lex_lt(res_name::<T>(#[trigger] s[j]), n) by {
                if j > 0 {
                    assert(s[j] == s1[j - 1]);
                }
            }
            assert forall|j: int| p <= j < s.len() implies !lex_lt(
                res_name::<T>(#[trigger] s[j]),
                n,
            ) by {
                assert(s[j] == s1[j - 1]);
            }
        } else {
            assert forall|j: int| 0 <= j < s.len() implies !lex_lt(
                res_name::<T>(#[trigger] s[j]),
                n,
            ) by {
                if j > 0 {
                    assert(lex_lt(res_name::<T>(s[0]), res_name::<T>(s[j])));
                    if lex_lt(res_name::<T>(s[j]), n) {
                        lemma_lex_lt_trans(res_name::<T>(s[0]), res_name::<T>(s[j]), n);
                    }
                }
            }
        }
    }
}

/// A name-indexed sorted sequence of resources. Inserting enforces the
/// store's concurrency control; see [`insert_effect`].
#[derive(Debug, PartialEq, Eq, Hash)]
pub struct Resources<T> {
    items: Vec<T>,
}

impl<T: Meta> View for Resources<T> {
    type V = Seq<T::V>;

    closed spec fn view(&self) -> Seq<T::V> {
        self.items.deep_view()
    }
}

impl<T: Meta + DeepClone> Clone for Resources<T> {
    fn clone(&self) -> (r: Self)
        ensures
            r@ == self@,
    {
        let r = Resources { items: crate::resources::deep_clone_vec(&self.items) };
        proof {
            assert(r@ =~= self@);
        }
        r
    }
}

impl<T: Meta> Default for Resources<T> {
    fn default() -> (r: Self)
        ensures
            r@ =~= Seq::<T::V>::empty(),
    {
        Resources { items: Vec::new() }
    }
}

impl<T: Meta + DeepClone> Resources<T> {
    /// Sorted by name and free of duplicates.
    pub open spec fn wf(self) -> bool {
        sorted::<T>(self@)
    }

    /// An empty collection.
    pub fn new() -> (r: Self)
        ensures
            r@ =~= Seq::<T::V>::empty(),
            r.wf(),
    {
        Resources { items: Vec::new() }
    }

    /// How many resources are held.
    pub fn len(&self) -> (n: usize)
        ensures
            n == self@.len(),
    {
        proof {
            assert(self@.len() == self.items@.len());
        }
        self.items.len()
    }

    /// Whether no resources are held.
    pub fn is_empty(&self) -> (r: bool)
        ensures
            r == (self@.len() == 0),
    {
        self.len() == 0
    }

    /// The resources in name order.
    pub fn to_vec(&self) -> (r: Vec<T>)
        ensures
            r.deep_view() == self@,
    {
        crate::resources::deep_clone_vec(&self.items)
    }

    /// Whether the held names are strictly ascending: the runtime twin of
    /// [`Resources::wf`], for testing a collection assembled by hand.
    pub fn is_sorted(&self) -> (r: bool)
        ensures
            r == self.wf(),
    {
        proof {
            assert(self@.len() == self.items@.len());
        }
        let n = self.items.len();
        if n <= 1 {
            return true;
        }
        let mut i: usize = 1;
        while i < n
            invariant
                1 <= i <= n,
                n == self.items@.len() == self@.len(),
                self@ == self.items.deep_view(),
                forall|a: int, b: int|
                    0 <= a < b < i ==> lex_lt(
                        res_name::<T>(#[trigger] self@[a]),
                        res_name::<T>(#[trigger] self@[b]),
                    ),
            decreases n - i,
        {
            proof {
                assert(self@[i - 1] == self.items@[i - 1].deep_view());
                assert(self@[i as int] == self.items@[i as int].deep_view());
            }
            if !crate::utils::str_lt(
                self.items[i - 1].metadata().name.as_str(),
                self.items[i].metadata().name.as_str(),
            ) {
                proof {
                    assert(!lex_lt(res_name::<T>(self@[i - 1]), res_name::<T>(self@[i as int])));
                }
                return false;
            }
            proof {
                assert forall|a: int| 0 <= a < i implies lex_lt(
                    res_name::<T>(#[trigger] self@[a]),
                    res_name::<T>(self@[i as int]),
                ) by {
                    if a < i - 1 {
                        crate::utils::lemma_lex_lt_trans(
                            res_name::<T>(self@[a]),
                            res_name::<T>(self@[i - 1]),
                            res_name::<T>(self@[i as int]),
                        );
                    }
                }
            }
            i = i + 1;
        }
        true
    }

    /// Insert or overwrite a resource under the concurrency-control rules;
    /// see [`insert_effect`] for the exact outcome.
    pub fn insert(&mut self, res: T, revision: Revision) -> (r: Result<(), ()>)
        requires
            old(self).wf(),
        ensures
            final(self).wf(),
            insert_effect::<T>(
                old(self)@,
                res.deep_view(),
                revision.str_spec(),
                r,
                final(self)@,
            ),
    {
        let ghost s0 = old(self)@;
        let ghost rv0 = res.deep_view();
        let ghost n = res_name::<T>(rv0);
        proof {
            lemma_ins_pos::<T>(s0, n);
        }
        let name = res.metadata().name.clone();
        let mut i: usize = 0;
        while i < self.items.len() && str_lt(self.items[i].metadata().name.as_str(), name.as_str())
            invariant
                self@ == s0,
                sorted::<T>(s0),
                name@ == n,
                i <= self.items@.len() == s0.len(),
                forall|j: int| 0 <= j < i ==> lex_lt(res_name::<T>(#[trigger] s0[j]), n),
            decreases self.items.len() - i,
        {
            proof {
                assert(s0[i as int] == self.items@[i as int].deep_view());
            }
            i = i + 1;
        }
        // `i` is now the first position whose name is not strictly before the
        // new one: the sorted position of the name.
        proof {
            if i < self.items.len() {
                assert(s0[i as int] == self.items@[i as int].deep_view());
                assert(!lex_lt(res_name::<T>(s0[i as int]), n));
            }
            assert(i == ins_pos::<T>(s0, n)) by {
                let p = ins_pos::<T>(s0, n);
                if p < i {
                    assert(lex_lt(res_name::<T>(s0[p]), n));
                    assert(!lex_lt(res_name::<T>(s0[p]), n));
                }
                if i < p {
                    assert(lex_lt(res_name::<T>(s0[i as int]), n));
                }
            }
        }
        if i < self.items.len() && str_eq(self.items[i].metadata().name.as_str(), name.as_str()) {
            // A resource with this name exists.
            proof {
                assert(s0[i as int] == self.items@[i as int].deep_view());
                lemma_idx_unique::<T>(s0, n, i as int);
            }
            let ghost ex = s0[i as int];
            let uid_ok = str_eq(
                res.metadata().uid.as_str(),
                self.items[i].metadata().uid.as_str(),
            );
            if !uid_ok {
                return Err(());
            }
            let rv_given = !res.metadata().resource_version.as_str().is_empty();
            if rv_given && !str_eq(
                res.metadata().resource_version.as_str(),
                self.items[i].metadata().resource_version.as_str(),
            ) {
                return Err(());
            }
            let differs = res.body_differs_from(&self.items[i]);
            let ex_gen = self.items[i].metadata().generation;
            let new_gen = if differs {
                if ex_gen == u64::MAX {
                    ex_gen
                } else {
                    ex_gen + 1
                }
            } else {
                ex_gen
            };
            let mut md = res.metadata().clone();
            md.resource_version = revision.to_string();
            md.generation = new_gen;
            let ghost mdv = md@;
            let mut res = res;
            res.set_metadata(md);
            proof {
                assert(mdv =~= MetadataView {
                    resource_version: revision.str_spec(),
                    generation: new_gen,
                    ..T::md_of(rv0)
                });
                assert(res.deep_view() == stamped_gen::<T>(rv0, revision.str_spec(), new_gen));
            }
            let ghost pre = self.items@;
            self.items.set(i, res);
            proof {
                let s1 = s0.update(i as int, stamped_gen::<T>(rv0, revision.str_spec(), new_gen));
                assert forall|j: int| 0 <= j < self@.len() implies self@[j] == s1[j] by {
                    assert(self@[j] == self.items@[j].deep_view());
                    if j != i {
                        assert(self.items@[j] == pre[j]);
                        assert(s0[j] == pre[j].deep_view());
                    }
                }
                assert(self@ =~= s1);
                T::lemma_with_md(rv0, mdv);
                assert(res_name::<T>(s1[i as int]) == n);
                assert(sorted::<T>(self@)) by {
                    assert(forall|a: int, b: int|
                        0 <= a < b < s1.len() ==> res_name::<T>(#[trigger] s1[a]) == res_name::<T>(
                            s0[a],
                        ) && res_name::<T>(#[trigger] s1[b]) == res_name::<T>(s0[b]));
                }

            }
            Ok(())
        } else {
            // No resource with this name: insert at the sorted position.
            proof {
                assert(!has_name::<T>(s0, n)) by {
                    if has_name::<T>(s0, n) {
                        let k = idx_of::<T>(s0, n);
                        assert(0 <= k < s0.len() && res_name::<T>(s0[k]) == n);
                        if k < i {
                            assert(lex_lt(res_name::<T>(s0[k]), n));
                            lemma_lex_lt_irrefl(n);
                        } else {
                            assert(!lex_lt(res_name::<T>(s0[k]), n));
                            if i < self.items.len() && k > i {
                                // names at i and k are both not before n, but
                                // the one at i differs from n
                                assert(s0[i as int] == self.items@[i as int].deep_view());
                                assert(res_name::<T>(s0[i as int]) != n);
                                assert(!lex_lt(res_name::<T>(s0[i as int]), n));
                                lemma_lex_lt_connected(res_name::<T>(s0[i as int]), n);
                                assert(lex_lt(n, res_name::<T>(s0[i as int])));
                                assert(lex_lt(
                                    res_name::<T>(s0[i as int]),
                                    res_name::<T>(s0[k]),
                                ));
                                lemma_lex_lt_trans(
                                    n,
                                    res_name::<T>(s0[i as int]),
                                    res_name::<T>(s0[k]),
                                );
                                lemma_lex_lt_irrefl(n);
                            } else if i < self.items.len() && k == i {
                                assert(s0[i as int] == self.items@[i as int].deep_view());
                                assert(res_name::<T>(s0[i as int]) != n);
                            }
                        }
                    }
                }
            }
            let mut md = res.metadata().clone();
            md.resource_version = revision.to_string();
            let ghost mdv = md@;
            let mut res = res;
            res.set_metadata(md);
            proof {
                assert(mdv =~= MetadataView {
                    resource_version: revision.str_spec(),
                    ..T::md_of(rv0)
                });
                assert(res.deep_view() == stamped::<T>(rv0, revision.str_spec()));
            }
            let ghost pre = self.items@;
            self.items.insert(i, res);
            proof {
                let nv = stamped::<T>(rv0, revision.str_spec());
                let s1 = s0.insert(i as int, nv);
                assert forall|j: int| 0 <= j < self@.len() implies self@[j] == s1[j] by {
                    assert(self@[j] == self.items@[j].deep_view());
                    if j < i {
                        assert(self.items@[j] == pre[j]);
                        assert(s0[j] == pre[j].deep_view());
                    } else if j > i {
                        assert(self.items@[j] == pre[j - 1]);
                        assert(s0[j - 1] == pre[j - 1].deep_view());
                    }
                }
                assert(self@ =~= s1);
                T::lemma_with_md(rv0, mdv);
                assert(res_name::<T>(nv) == n);
                let p = i as int;
                assert forall|j: int| p <= j < s0.len() implies lex_lt(
                    n,
                    res_name::<T>(#[trigger] s0[j]),
                ) by {
                    assert(!lex_lt(res_name::<T>(s0[j]), n));
                    if res_name::<T>(s0[j]) == n {
                        assert(has_name::<T>(s0, n));
                    }
                    if !lex_lt(n, res_name::<T>(s0[j])) {
                        lemma_lex_lt_connected(res_name::<T>(s0[j]), n);
                    }
                }
                assert forall|a: int, b: int| 0 <= a < b < s1.len() implies lex_lt(
                    res_name::<T>(#[trigger] s1[a]),
                    res_name::<T>(#[trigger] s1[b]),
                ) by {
                    if b < p {
                        assert(s1[a] == s0[a] && s1[b] == s0[b]);
                    } else if a < p && b == p {
                        assert(s1[a] == s0[a] && s1[b] == nv);
                    } else if a < p && b > p {
                        assert(s1[a] == s0[a] && s1[b] == s0[b - 1]);
                        if b - 1 == a {
                            assert(lex_lt(res_name::<T>(s0[a]), n));
                            assert(lex_lt(n, res_name::<T>(s0[b - 1])));
                            lemma_lex_lt_trans(
                                res_name::<T>(s0[a]),
                                n,
                                res_name::<T>(s0[b - 1]),
                            );
                        } else {
                            assert(lex_lt(res_name::<T>(s0[a]), res_name::<T>(s0[b - 1])));
                        }
                    } else if a == p {
                        assert(s1[a] == nv && s1[b] == s0[b - 1]);
                        assert(lex_lt(n, res_name::<T>(s0[b - 1])));
                    } else {
                        assert(s1[a] == s0[a - 1] && s1[b] == s0[b - 1]);
                    }
                }
            }
            Ok(())
        }
    }

    /// Whether a resource with this name is held.
    pub fn has(&self, name: &str) -> (r: bool)
        requires
            self.wf(),
        ensures
            r == has_name::<T>(self@, name@),
    {
        self.get(name).is_some()
    }

    /// The resource with this name, if any.
    pub fn get(&self, name: &str) -> (r: Option<&T>)
        requires
            self.wf(),
        ensures
            match r {
                Some(t) => has_name::<T>(self@, name@) && t.deep_view() == self@[idx_of::<T>(
                    self@,
                    name@,
                )],
                None => !has_name::<T>(self@, name@),
            },
    {
        let mut i: usize = 0;
        while i < self.items.len()
            invariant
                self.wf(),
                i <= self.items@.len() == self@.len(),
                forall|j: int| 0 <= j < i ==> res_name::<T>(#[trigger] self@[j]) != name@,
            decreases self.items.len() - i,
        {
            proof {
                assert(self@[i as int] == self.items@[i as int].deep_view());
            }
            if str_eq(self.items[i].metadata().name.as_str(), name) {
                proof {
                    lemma_idx_unique::<T>(self@, name@, i as int);
                }
                return Some(&self.items[i]);
            }
            i = i + 1;
        }
        None
    }

    /// Remove and return the resource with this name, if any.
    pub fn remove(&mut self, name: &str) -> (r: Option<T>)
        requires
            old(self).wf(),
        ensures
            final(self).wf(),
            match r {
                Some(t) => has_name::<T>(old(self)@, name@) && t.deep_view() == old(
                    self,
                )@[idx_of::<T>(old(self)@, name@)] && final(self)@ == old(self)@.remove(
                    idx_of::<T>(old(self)@, name@),
                ),
                None => !has_name::<T>(old(self)@, name@) && final(self)@ == old(self)@,
            },
    {
        let ghost s0 = old(self)@;
        let mut i: usize = 0;
        while i < self.items.len()
            invariant
                self@ == s0,
                old(self)@ == s0,
                sorted::<T>(s0),
                i <= self.items@.len() == s0.len(),
                forall|j: int| 0 <= j < i ==> res_name::<T>(#[trigger] s0[j]) != name@,
            decreases self.items.len() - i,
        {
            proof {
                assert(s0[i as int] == self.items@[i as int].deep_view());
            }
            if str_eq(self.items[i].metadata().name.as_str(), name) {
                proof {
                    lemma_idx_unique::<T>(s0, name@, i as int);
                }
                let ghost pre = self.items@;
                let t = self.items.remove(i);
                proof {
                    assert(t.deep_view() == pre[i as int].deep_view());
                    assert(s0[i as int] == pre[i as int].deep_view());
                    assert forall|j: int| 0 <= j < self@.len() implies self@[j] == s0.remove(
                        i as int,
                    )[j] by {
                        assert(self@[j] == self.items@[j].deep_view());
                        if j < i {
                            assert(self.items@[j] == pre[j]);
                            assert(s0[j] == pre[j].deep_view());
                        } else {
                            assert(self.items@[j] == pre[j + 1]);
                            assert(s0[j + 1] == pre[j + 1].deep_view());
                        }
                    }
                    assert(self@ =~= s0.remove(i as int));
                    assert(sorted::<T>(self@)) by {
                        assert(forall|a: int|
                            0 <= a < self@.len() ==> #[trigger] self@[a] == if a < i {
                                s0[a]
                            } else {
                                s0[a + 1]
                            });
                    }
                }
                return Some(t);
            }
            i = i + 1;
        }
        None
    }

    /// The resources owned by the controller with this uid, in name order.
    pub fn for_controller(&self, uid: &str) -> (r: Vec<T>)
        ensures
            r.deep_view() == self@.filter(
                |v: T::V| spec_has_owner(T::md_of(v).owner_references, uid@),
            ),
    {
        let ghost pred = |v: T::V| spec_has_owner(T::md_of(v).owner_references, uid@);
        let mut r: Vec<T> = Vec::new();
        let mut i: usize = 0;
        while i < self.items.len()
            invariant
                i <= self.items@.len() == self@.len(),
                r.deep_view() == self@.take(i as int).filter(pred),
                pred == (|v: T::V| spec_has_owner(T::md_of(v).owner_references, uid@)),
            decreases self.items.len() - i,
        {
            proof {
                assert(self@[i as int] == self.items@[i as int].deep_view());
                self@.lemma_take_succ_push(i as int);
                self@.take(i as int).lemma_filter_push(self@[i as int], pred);
            }
            let ghost before = r.deep_view();
            if has_owner(self.items[i].metadata(), uid) {
                r.push(self.items[i].deep_clone());
                proof {
                    assert forall|j: int| 0 <= j < r.deep_view().len() implies r.deep_view()[j]
                        == before.push(self@[i as int])[j] by {
                        assert(r.deep_view()[j] == r@[j].deep_view());
                        if j < before.len() {
                            assert(before[j] == r@[j].deep_view());
                        }
                    }
                    assert(r.deep_view() =~= before.push(self@[i as int]));
                }
            }
            i = i + 1;
        }
        proof {
            assert(self@.take(self@.len() as int) =~= self@);
        }
        r
    }

    /// The resources whose labels satisfy the selector, in name order.
    pub fn matching(&self, selector: &crate::resources::LabelSelector) -> (r: Vec<T>)
        ensures
            r.deep_view() == self@.filter(
                |v: T::V|
                    crate::resources::spec_selector_matches(selector@, T::md_of(v).labels),
            ),
    {
        let ghost pred = |v: T::V|
            crate::resources::spec_selector_matches(selector@, T::md_of(v).labels);
        let mut r: Vec<T> = Vec::new();
        let mut i: usize = 0;
        while i < self.items.len()
            invariant
                i <= self.items@.len() == self@.len(),
                r.deep_view() == self@.take(i as int).filter(pred),
                pred == (|v: T::V|
                    crate::resources::spec_selector_matches(selector@, T::md_of(v).labels)),
            decreases self.items.len() - i,
        {
            proof {
                assert(self@[i as int] == self.items@[i as int].deep_view());
                self@.lemma_take_succ_push(i as int);
                self@.take(i as int).lemma_filter_push(self@[i as int], pred);
            }
            let ghost before = r.deep_view();
            if selector.matches(&self.items[i].metadata().labels) {
                r.push(self.items[i].deep_clone());
                proof {
                    assert forall|j: int| 0 <= j < r.deep_view().len() implies r.deep_view()[j]
                        == before.push(self@[i as int])[j] by {
                        assert(r.deep_view()[j] == r@[j].deep_view());
                        if j < before.len() {
                            assert(before[j] == r@[j].deep_view());
                        }
                    }
                    assert(r.deep_view() =~= before.push(self@[i as int]));
                }
            }
            i = i + 1;
        }
        proof {
            assert(self@.take(self@.len() as int) =~= self@);
        }
        r
    }

    /// Keep only the resources satisfying a decidable predicate on views.
    /// The caller supplies the test as an executable closure whose result is
    /// pinned to the spec predicate `pred`.
    pub fn retain<F: Fn(&T) -> bool>(&mut self, Ghost(pred): Ghost<spec_fn(T::V) -> bool>, f: F)
        requires
            old(self).wf(),
            forall|t: &T| #[trigger] f.requires((t,)),
            forall|t: &T, b: bool| f.ensures((t,), b) ==> b == pred(t.deep_view()),
        ensures
            final(self).wf(),
            final(self)@ == old(self)@.filter(pred),
    {
        let ghost s0 = old(self)@;
        let mut kept: Vec<T> = Vec::new();
        let mut i: usize = 0;
        while i < self.items.len()
            invariant
                self@ == s0,
                sorted::<T>(s0),
                i <= self.items@.len() == s0.len(),
                kept.deep_view() == s0.take(i as int).filter(pred),
                forall|t: &T| #[trigger] f.requires((t,)),
                forall|t: &T, b: bool| f.ensures((t,), b) ==> b == pred(t.deep_view()),
            decreases self.items.len() - i,
        {
            proof {
                assert(s0[i as int] == self.items@[i as int].deep_view());
                s0.lemma_take_succ_push(i as int);
                s0.take(i as int).lemma_filter_push(s0[i as int], pred);
            }
            let ghost before = kept.deep_view();
            if f(&self.items[i]) {
                kept.push(self.items[i].deep_clone());
                proof {
                    assert forall|j: int| 0 <= j < kept.deep_view().len() implies kept.deep_view()[j]
                        == before.push(s0[i as int])[j] by {
                        assert(kept.deep_view()[j] == kept@[j].deep_view());
                        if j < before.len() {
                            assert(before[j] == kept@[j].deep_view());
                        }
                    }
                    assert(kept.deep_view() =~= before.push(s0[i as int]));
                }
            }
            i = i + 1;
        }
        proof {
            assert(s0.take(s0.len() as int) =~= s0);
        }
        self.items = kept;
        proof {
            lemma_sorted_filter::<T>(s0, pred);
        }
    }
}

/// Every name in the filtered sequence stays below any bound that the
/// original sequence's names are below.
proof fn lemma_filter_names_lt<T: Meta>(s: Seq<T::V>, pred: spec_fn(T::V) -> bool, x: Seq<char>)
    requires
        forall|i: int| 0 <= i < s.len() ==> lex_lt(res_name::<T>(#[trigger] s[i]), x),
    ensures
        forall|a: int|
            0 <= a < s.filter(pred).len() ==> lex_lt(
                res_name::<T>(#[trigger] s.filter(pred)[a]),
                x,
            ),
    decreases s.len(),
{
    reveal(Seq::filter);
    if s.len() > 0 {
        let prefix = s.drop_last();
        assert(forall|i: int|
            0 <= i < prefix.len() ==> lex_lt(res_name::<T>(#[trigger] prefix[i]), x)) by {
            assert(forall|i: int| 0 <= i < prefix.len() ==> #[trigger] prefix[i] == s[i]);
        }
        lemma_filter_names_lt::<T>(prefix, pred, x);
        let f = prefix.filter(pred);
        if pred(s.last()) {
            assert forall|a: int| 0 <= a < s.filter(pred).len() implies lex_lt(
                res_name::<T>(#[trigger] s.filter(pred)[a]),
                x,
            ) by {
                if a < f.len() {
                    assert(s.filter(pred)[a] == f[a]);
                } else {
                    assert(s.filter(pred)[a] == s.last());
                }
            }
        }
    }
}

/// Filtering a sorted sequence keeps it sorted.
proof fn lemma_sorted_filter<T: Meta>(s: Seq<T::V>, pred: spec_fn(T::V) -> bool)
    requires
        sorted::<T>(s),
    ensures
        sorted::<T>(s.filter(pred)),
    decreases s.len(),
{
    reveal(Seq::filter);
    if s.len() > 0 {
        let prefix = s.drop_last();
        assert(sorted::<T>(prefix)) by {
            assert(forall|i: int, j: int|
                0 <= i < j < prefix.len() ==> #[trigger] prefix[i] == s[i] && #[trigger] prefix[j]
                    == s[j]);
        }
        lemma_sorted_filter::<T>(prefix, pred);
        if pred(s.last()) {
            let f = prefix.filter(pred);
            assert(s.filter(pred) == f.push(s.last()));
            assert(forall|i: int|
                0 <= i < prefix.len() ==> lex_lt(
                    res_name::<T>(#[trigger] prefix[i]),
                    res_name::<T>(s.last()),
                )) by {
                assert(forall|i: int| 0 <= i < prefix.len() ==> #[trigger] prefix[i] == s[i]);
            }
            lemma_filter_names_lt::<T>(prefix, pred, res_name::<T>(s.last()));
            assert forall|a: int, b: int| 0 <= a < b < f.push(s.last()).len() implies lex_lt(
                res_name::<T>(#[trigger] f.push(s.last())[a]),
                res_name::<T>(#[trigger] f.push(s.last())[b]),
            ) by {
                if b < f.len() {
                    assert(f.push(s.last())[a] == f[a] && f.push(s.last())[b] == f[b]);
                } else {
                    assert(f.push(s.last())[a] == f[a] && f.push(s.last())[b] == s.last());
                    assert(lex_lt(res_name::<T>(f[a]), res_name::<T>(s.last())));
                }
            }
        }
    }
}

/// The owner references include this uid.
pub open spec fn spec_has_owner(ors: Seq<OwnerReferenceView>, uid: Seq<char>) -> bool {
    exists|i: int| 0 <= i < ors.len() && (#[trigger] ors[i]).uid == uid
}

/// Whether the metadata names an owner with this uid.
pub fn has_owner(md: &Metadata, uid: &str) -> (r: bool)
    ensures
        r == spec_has_owner(md@.owner_references, uid@),
{
    let ghost ors = md@.owner_references;
    let mut i: usize = 0;
    while i < md.owner_references.len()
        invariant
            i <= md.owner_references@.len() == ors.len(),
            ors == md@.owner_references,
            forall|j: int| 0 <= j < i ==> (#[trigger] ors[j]).uid != uid@,
        decreases md.owner_references.len() - i,
    {
        proof {
            assert(ors[i as int] == md.owner_references@[i as int]@);
        }
        if str_eq(md.owner_references[i].uid.as_str(), uid) {
            return true;
        }
        i = i + 1;
    }
    false
}


// ---------------------------------------------------------------------------
// Pod-specific store operations
// ---------------------------------------------------------------------------

/// The pod collection after assigning `node` to the pod named `n`; unchanged
/// when no such pod exists.
pub open spec fn pods_scheduled(s: Seq<PodView>, n: Seq<char>, node: usize) -> Seq<PodView> {
    if has_name::<Pod>(s, n) {
        let i = idx_of::<Pod>(s, n);
        s.update(
            i,
            PodView { spec: PodSpecView { node_name: Some(node), ..s[i].spec }, ..s[i] },
        )
    } else {
        s
    }
}

/// The pod collection after a delete of the pod named `n` at time `t`: a pod
/// holding finalizers is soft-deleted by stamping its deletion timestamp, a
/// pod holding none vanishes, and a missing pod is ignored.
pub open spec fn pods_deleted(s: Seq<PodView>, n: Seq<char>, t: Time) -> Seq<PodView> {
    if has_name::<Pod>(s, n) {
        let i = idx_of::<Pod>(s, n);
        if s[i].metadata.finalizers.len() == 0 {
            s.remove(i)
        } else {
            s.update(
                i,
                PodView {
                    metadata: MetadataView { deletion_timestamp: Some(t), ..s[i].metadata },
                    ..s[i]
                },
            )
        }
    } else {
        s
    }
}

impl Resources<Pod> {
    /// Assign a node to the named pod; a no-op if the pod is gone.
    pub fn set_pod_node(&mut self, name: &str, node: usize)
        requires
            old(self).wf(),
        ensures
            final(self).wf(),
            final(self)@ == pods_scheduled(old(self)@, name@, node),
    {
        let ghost s0 = old(self)@;
        let mut i: usize = 0;
        while i < self.items.len()
            invariant
                self@ == s0,
                old(self)@ == s0,
                sorted::<Pod>(s0),
                i <= self.items@.len() == s0.len(),
                forall|j: int| 0 <= j < i ==> res_name::<Pod>(#[trigger] s0[j]) != name@,
            decreases self.items.len() - i,
        {
            proof {
                assert(s0[i as int] == self.items@[i as int].deep_view());
            }
            if str_eq(self.items[i].metadata.name.as_str(), name) {
                proof {
                    lemma_idx_unique::<Pod>(s0, name@, i as int);
                }
                let mut p = self.items[i].clone();
                p.spec.node_name = Some(node);
                proof {
                    assert(p.deep_view() =~= PodView {
                        spec: PodSpecView { node_name: Some(node), ..s0[i as int].spec },
                        ..s0[i as int]
                    });
                }
                let ghost pre = self.items@;
                self.items.set(i, p);
                proof {
                    let s1 = pods_scheduled(s0, name@, node);
                    assert forall|j: int| 0 <= j < self@.len() implies self@[j] == s1[j] by {
                        assert(self@[j] == self.items@[j].deep_view());
                        if j != i {
                            assert(self.items@[j] == pre[j]);
                            assert(s0[j] == pre[j].deep_view());
                        }
                    }
                    assert(self@ =~= s1);
                    assert(sorted::<Pod>(self@)) by {
                        assert(forall|a: int, b: int|
                            0 <= a < b < self@.len() ==> res_name::<Pod>(#[trigger] self@[a])
                                == res_name::<Pod>(s0[a]) && res_name::<Pod>(#[trigger] self@[b])
                                == res_name::<Pod>(s0[b]));
                    }
                }
                return ;
            }
            i = i + 1;
        }
        proof {
            if has_name::<Pod>(s0, name@) {
                let k = idx_of::<Pod>(s0, name@);
                assert(0 <= k < s0.len() && res_name::<Pod>(s0[k]) == name@);
            }
        }
    }

    /// Delete the named pod at time `t`: soft when it holds finalizers, hard
    /// when it holds none; a no-op if the pod is gone.
    pub fn delete_pod(&mut self, name: &str, t: Time)
        requires
            old(self).wf(),
        ensures
            final(self).wf(),
            final(self)@ == pods_deleted(old(self)@, name@, t),
    {
        let ghost s0 = old(self)@;
        let mut i: usize = 0;
        while i < self.items.len()
            invariant
                self@ == s0,
                old(self)@ == s0,
                sorted::<Pod>(s0),
                i <= self.items@.len() == s0.len(),
                forall|j: int| 0 <= j < i ==> res_name::<Pod>(#[trigger] s0[j]) != name@,
            decreases self.items.len() - i,
        {
            proof {
                assert(s0[i as int] == self.items@[i as int].deep_view());
            }
            if str_eq(self.items[i].metadata.name.as_str(), name) {
                proof {
                    lemma_idx_unique::<Pod>(s0, name@, i as int);
                }
                if self.items[i].metadata.finalizers.len() == 0 {
                    proof {
                        assert(s0[i as int].metadata.finalizers.len() == 0);
                    }
                    let ghost pre = self.items@;
                    let _ = self.items.remove(i);
                    proof {
                        assert forall|j: int| 0 <= j < self@.len() implies self@[j] == s0.remove(
                            i as int,
                        )[j] by {
                            assert(self@[j] == self.items@[j].deep_view());
                            if j < i {
                                assert(self.items@[j] == pre[j]);
                                assert(s0[j] == pre[j].deep_view());
                            } else {
                                assert(self.items@[j] == pre[j + 1]);
                                assert(s0[j + 1] == pre[j + 1].deep_view());
                            }
                        }
                        assert(self@ =~= s0.remove(i as int));
                        assert(sorted::<Pod>(self@)) by {
                            assert(forall|a: int|
                                0 <= a < self@.len() ==> #[trigger] self@[a] == if a < i {
                                    s0[a]
                                } else {
                                    s0[a + 1]
                                });
                        }
                    }
                } else {
                    proof {
                        assert(s0[i as int].metadata.finalizers.len() != 0);
                    }
                    let mut p = self.items[i].clone();
                    p.metadata.deletion_timestamp = Some(t);
                    proof {
                        assert(p.deep_view() =~= PodView {
                            metadata: MetadataView {
                                deletion_timestamp: Some(t),
                                ..s0[i as int].metadata
                            },
                            ..s0[i as int]
                        });
                    }
                    let ghost pre = self.items@;
                    self.items.set(i, p);
                    proof {
                        let s1 = pods_deleted(s0, name@, t);
                        assert forall|j: int| 0 <= j < self@.len() implies self@[j] == s1[j] by {
                            assert(self@[j] == self.items@[j].deep_view());
                            if j != i {
                                assert(self.items@[j] == pre[j]);
                                assert(s0[j] == pre[j].deep_view());
                            }
                        }
                        assert(self@ =~= s1);
                        assert(sorted::<Pod>(self@)) by {
                            assert(forall|a: int, b: int|
                                0 <= a < b < self@.len() ==> res_name::<Pod>(#[trigger] self@[a])
                                    == res_name::<Pod>(s0[a]) && res_name::<Pod>(
                                    #[trigger] self@[b],
                                ) == res_name::<Pod>(s0[b]));
                        }
                    }
                }
                return ;
            }
            i = i + 1;
        }
        proof {
            if has_name::<Pod>(s0, name@) {
                let k = idx_of::<Pod>(s0, name@);
                assert(0 <= k < s0.len() && res_name::<Pod>(s0[k]) == name@);
            }
        }
    }
}


impl Resources<Pod> {
    /// Drop every pod assigned to this node, as a node crash does.
    pub fn remove_on_node(&mut self, node: usize)
        requires
            old(self).wf(),
        ensures
            final(self).wf(),
            final(self)@ == old(self)@.filter(|p: PodView| p.spec.node_name != Some(node)),
    {
        let ghost s0 = old(self)@;
        let ghost pred = |p: PodView| p.spec.node_name != Some(node);
        let mut kept: Vec<Pod> = Vec::new();
        let mut i: usize = 0;
        while i < self.items.len()
            invariant
                self@ == s0,
                sorted::<Pod>(s0),
                i <= self.items@.len() == s0.len(),
                kept.deep_view() == s0.take(i as int).filter(pred),
                pred == (|p: PodView| p.spec.node_name != Some(node)),
            decreases self.items.len() - i,
        {
            proof {
                assert(s0[i as int] == self.items@[i as int].deep_view());
                s0.lemma_take_succ_push(i as int);
                s0.take(i as int).lemma_filter_push(s0[i as int], pred);
            }
            let ghost before = kept.deep_view();
            let keep = match self.items[i].spec.node_name {
                Some(m) => m != node,
                None => true,
            };
            if keep {
                kept.push(self.items[i].deep_clone());
                proof {
                    assert forall|j: int| 0 <= j < kept.deep_view().len()
                        implies kept.deep_view()[j] == before.push(s0[i as int])[j] by {
                        assert(kept.deep_view()[j] == kept@[j].deep_view());
                        if j < before.len() {
                            assert(before[j] == kept@[j].deep_view());
                        }
                    }
                    assert(kept.deep_view() =~= before.push(s0[i as int]));
                }
            }
            i = i + 1;
        }
        proof {
            assert(s0.take(s0.len() as int) =~= s0);
        }
        self.items = kept;
        proof {
            lemma_sorted_filter::<Pod>(s0, pred);
        }
    }
}


/// The generation recorded for a name.
pub open spec fn gen_of<T: Meta>(s: Seq<T::V>, n: Seq<char>) -> u64 {
    T::md_of(s[idx_of::<T>(s, n)]).generation
}

/// A write never lowers any resource's generation: an accepted overwrite
/// keeps or bumps the stored generation, every other resource is untouched,
/// and a rejected write changes nothing.
pub proof fn lemma_generation_monotonic<T: Meta>(
    s0: Seq<T::V>,
    v: T::V,
    rev_str: Seq<char>,
    r: Result<(), ()>,
    s1: Seq<T::V>,
)
    requires
        sorted::<T>(s0),
        sorted::<T>(s1),
        insert_effect::<T>(s0, v, rev_str, r, s1),
    ensures
        forall|n: Seq<char>|
            #![trigger gen_of::<T>(s1, n)]
            has_name::<T>(s0, n) && has_name::<T>(s1, n) ==> gen_of::<T>(s1, n) >= gen_of::<T>(
                s0,
                n,
            ),
{
    let name = res_name::<T>(v);
    assert forall|n: Seq<char>|
        has_name::<T>(s0, n) && has_name::<T>(s1, n) implies gen_of::<T>(s1, n) >= gen_of::<T>(
        s0,
        n,
    ) by {
        let i0 = idx_of::<T>(s0, n);
        let i1 = idx_of::<T>(s1, n);
        assert(0 <= i0 < s0.len() && res_name::<T>(s0[i0]) == n);
        assert(0 <= i1 < s1.len() && res_name::<T>(s1[i1]) == n);
        if !has_name::<T>(s0, name) {
            // a fresh insert shifts positions but keeps every old resource
            let p = ins_pos::<T>(s0, name);
            lemma_ins_pos::<T>(s0, name);
            let nv = stamped::<T>(v, rev_str);
            assert(s1 == s0.insert(p, nv));
            s0.insert_ensures(p, nv);
            T::lemma_with_md(v, MetadataView { resource_version: rev_str, ..T::md_of(v) });
            assert(res_name::<T>(nv) == name);
            if i1 < p {
                assert(s1[i1] == s0[i1]);
                lemma_idx_unique::<T>(s0, n, i1);
            } else if i1 == p {
                assert(s1[p] == nv);
                assert(n == name);
                assert(false);
            } else {
                assert(s1[(i1 - 1) + 1] == s0[i1 - 1]);
                lemma_idx_unique::<T>(s0, n, i1 - 1);
            }
        } else if !insert_ok::<T>(s0, v) {
            assert(s1 == s0);
        } else {
            let i = idx_of::<T>(s0, name);
            let ex = s0[i];
            let g = if T::body_differs(v, ex) {
                bumped(T::md_of(ex).generation)
            } else {
                T::md_of(ex).generation
            };
            assert(g >= T::md_of(ex).generation);
            let nv = stamped_gen::<T>(v, rev_str, g);
            assert(s1 == s0.update(i, nv));
            T::lemma_with_md(
                v,
                MetadataView { resource_version: rev_str, generation: g, ..T::md_of(v) },
            );
            assert(res_name::<T>(nv) == name);
            if i1 == i {
                assert(s1[i1] == nv);
                assert(n == name);
                lemma_idx_unique::<T>(s0, name, i);
                assert(i0 == i);
                assert(gen_of::<T>(s1, n) == g);
            } else {
                assert(s1[i1] == s0[i1]);
                lemma_idx_unique::<T>(s0, n, i1);
            }
        }
    }
}

} // verus!
