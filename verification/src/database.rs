//! The database: owner of all tables and of the process-wide indexes.
//!
//! The `TableId -> Table` mapping (a vector indexed by table id) is the one
//! owner of table data. The entity index stores ids only, never a second copy
//! of a table, and the signature lookup is a search over the owning vector
//! itself, so no second structure can fall out of step with it. The layout
//! registry records, per component id, the byte size and alignment that every
//! column of that component must use.
use vstd::prelude::*;
use vstd::pervasive::unreached;

use crate::column::valid_align;
use crate::component::ComponentId;
use crate::entity::EntityId;
use crate::errors::EcsError;
use crate::order::canon_ids;
use crate::order::copy_bytes;
use crate::order::copy_ids;
use crate::order::distinct_keys;
use crate::order::find_index;
use crate::order::find_key;
use crate::order::find_key_index;
use crate::order::has_key;
use crate::order::ids_equal;
use crate::order::lemma_find_key;
use crate::order::lemma_find_key_at;
use crate::order::lemma_find_key_push;
use crate::order::lemma_sorted_set_unique;
use crate::order::sorted_strict;
use crate::table::Table;
use crate::table::value_for;

verus! {

/// A stable identifier of one table: its index in the owning vector.
#[derive(Clone, Copy, PartialEq, Eq, Structural, Debug)]
pub struct TableId(pub u64);

/// The id sequence underlying a sequence of component ids.
pub open spec fn id_seq(s: Seq<ComponentId>) -> Seq<u64> {
    s.map_values(|c: ComponentId| c.0)
}

/// The component set named by a sequence of component ids.
pub open spec fn ids_set(s: Seq<ComponentId>) -> Set<u64> {
    id_seq(s).to_set()
}

/// Whether no component id occurs twice among supplied values.
pub open spec fn distinct_cids(vs: Seq<(ComponentId, Vec<u8>)>) -> bool {
    forall|k1: int, k2: int| 0 <= k1 < k2 < vs.len() ==> vs[k1].0.0 != vs[k2].0.0
}

/// The component set keyed by supplied values.
pub open spec fn cid_set(vs: Seq<(ComponentId, Vec<u8>)>) -> Set<u64> {
    vs.map_values(|p: (ComponentId, Vec<u8>)| p.0.0).to_set()
}

/// The owner of all tables, the entity index, and the layout registry.
///
/// A table whose last row migrates or despawns away is retained empty for
/// reuse, never reclaimed: signature lookup stays consistent, and the choice
/// is observable only as memory footprint, never in a query result.
pub struct Database {
    pub tables: Vec<Table>,
    pub table_by_entity: Vec<(u64, usize)>,
    pub layouts: Vec<(u64, (usize, usize))>,
}

/// Whether `post` holds entity `e` exactly as `pre` did: same liveness, the
/// same signature, and the same bytes under every component of it.
pub open spec fn entity_unchanged(pre: Database, post: Database, e: u64) -> bool {
    &&& post.live(e) == pre.live(e)
    &&& pre.live(e) ==> post.sig_of(e) == pre.sig_of(e) && forall|c: u64|
        pre.sig_of(e).contains(c) ==> post.value_of(e, c) == pre.value_of(e, c)
}

impl Database {
    /// Position of `e` in the entity index, or -1.
    pub open spec fn tbe_index(self, e: u64) -> int {
        find_key(self.table_by_entity@, e)
    }

    /// Whether entity `e` currently occupies a row somewhere.
    pub open spec fn live(self, e: u64) -> bool {
        self.tbe_index(e) >= 0
    }

    /// The table currently holding `e`.
    pub open spec fn table_of(self, e: u64) -> int {
        self.table_by_entity@[self.tbe_index(e)].1 as int
    }

    /// The signature of the table currently holding `e`.
    pub open spec fn sig_of(self, e: u64) -> Seq<u64> {
        self.tables@[self.table_of(e)].signature@
    }

    /// The bytes stored for `e` under component `c`.
    pub open spec fn value_of(self, e: u64, c: u64) -> Seq<u8> {
        self.tables@[self.table_of(e)].value_of(e, c)
    }

    /// Whether `e` is live with `c` in its signature.
    pub open spec fn has_entity_component(self, e: u64, c: u64) -> bool {
        self.live(e) && self.sig_of(e).contains(c)
    }

    /// Whether a layout is registered for component `c`.
    pub open spec fn registered(self, c: u64) -> bool {
        find_key(self.layouts@, c) >= 0
    }

    /// The registered byte size of component `c`.
    pub open spec fn size_of(self, c: u64) -> usize {
        self.layouts@[find_key(self.layouts@, c)].1.0
    }

    /// The registered alignment of component `c`.
    pub open spec fn align_of(self, c: u64) -> usize {
        self.layouts@[find_key(self.layouts@, c)].1.1
    }

    /// Whether every supplied value names a registered component and carries
    /// exactly the registered number of bytes.
    pub open spec fn values_layout_ok(self, vs: Seq<(ComponentId, Vec<u8>)>) -> bool {
        forall|k: int|
            0 <= k < vs.len() ==> self.registered((#[trigger] vs[k]).0.0) && vs[k].1@.len()
                == self.size_of(vs[k].0.0)
    }

    /// Whether some table already carries exactly the component set `s`.
    pub open spec fn has_table(self, s: Set<u64>) -> bool {
        exists|t: int|
            0 <= t < self.tables@.len() && (#[trigger] self.tables@[t]).signature@.to_set() == s
    }

    /// Whether the entity index maps `e` to table `t`.
    pub open spec fn entity_indexed(self, e: u64, t: int) -> bool {
        self.tbe_index(e) >= 0 && self.table_by_entity@[self.tbe_index(e)].1 == t
    }

    /// Whether column `j` of table `t` uses the registered layout of its
    /// component.
    pub open spec fn col_registered(self, t: int, j: int) -> bool {
        let c = self.tables@[t].signature@[j];
        &&& self.registered(c)
        &&& self.tables@[t].cols@[j].element_size == self.size_of(c)
        &&& self.tables@[t].cols@[j].align == self.align_of(c)
    }

    /// The database invariant.
    ///
    /// Every table is well formed; no two tables share a signature; the
    /// entity index is a duplicate-free map whose every entry points at a
    /// table really holding that entity; conversely every row of every table
    /// is indexed, so an entity occupies exactly one row in exactly one table;
    /// and every column agrees with the registered layout of its component.
    pub open spec fn wf(self) -> bool {
        &&& forall|t: int| 0 <= t < self.tables@.len() ==> (#[trigger] self.tables@[t]).wf()
        &&& forall|t1: int, t2: int|
            0 <= t1 < t2 < self.tables@.len() ==> self.tables@[t1].signature@
                != self.tables@[t2].signature@
        &&& distinct_keys(self.table_by_entity@)
        &&& forall|k: int|
            0 <= k < self.table_by_entity@.len() ==> (#[trigger] self.table_by_entity@[k]).1
                < self.tables@.len() && self.tables@[self.table_by_entity@[k].1 as int].contains_entity(
                self.table_by_entity@[k].0,
            )
        &&& forall|t: int, i: int|
            #![trigger self.tables@[t].entities@[i]]
            0 <= t < self.tables@.len() && 0 <= i < self.tables@[t].entities@.len()
                ==> self.entity_indexed(self.tables@[t].entities@[i], t)
        &&& distinct_keys(self.layouts@)
        &&& forall|k: int|
            0 <= k < self.layouts@.len() ==> (#[trigger] self.layouts@[k]).1.0 >= 1 && valid_align(
                self.layouts@[k].1.1,
            )
        &&& forall|t: int, j: int|
            #![trigger self.tables@[t].signature@[j]]
            0 <= t < self.tables@.len() && 0 <= j < self.tables@[t].signature@.len()
                ==> self.col_registered(t, j)
    }

    /// An empty database: no tables, no indexed entities, no layouts.
    pub fn new() -> (db: Database)
        ensures
            db.wf(),
            db.tables@.len() == 0,
            db.table_by_entity@.len() == 0,
            db.layouts@.len() == 0,
            forall|e: u64| !db.live(e),
    {
        Database { tables: Vec::new(), table_by_entity: Vec::new(), layouts: Vec::new() }
    }

    /// Records the byte size and alignment of component `component`, which
    /// every later column of that component must use. The size must be
    /// non-zero and the alignment a power of two; a component can be
    /// registered only once.
    pub fn register_component(&mut self, component: ComponentId, size: usize, align: usize) -> (r:
        Result<(), EcsError>)
        requires
            old(self).wf(),
        ensures
            final(self).wf(),
            final(self).tables@ == old(self).tables@,
            final(self).table_by_entity@ == old(self).table_by_entity@,
            match r {
                Ok(()) => {
                    &&& !old(self).registered(component.0)
                    &&& size >= 1
                    &&& valid_align(align)
                    &&& final(self).layouts@ == old(self).layouts@.push((component.0, (size, align)))
                    &&& final(self).registered(component.0)
                    &&& final(self).size_of(component.0) == size
                    &&& final(self).align_of(component.0) == align
                    &&& forall|c2: u64|
                        c2 != component.0 ==> final(self).registered(c2) == old(self).registered(c2)
                            && (old(self).registered(c2) ==> final(self).size_of(c2) == old(
                            self,
                        ).size_of(c2) && final(self).align_of(c2) == old(self).align_of(c2))
                },
                Err(EcsError::DuplicateComponent) => {
                    &&& old(self).registered(component.0)
                    &&& *final(self) == *old(self)
                },
                Err(EcsError::TypeLayoutMismatch) => {
                    &&& !old(self).registered(component.0)
                    &&& (size == 0 || !valid_align(align))
                    &&& *final(self) == *old(self)
                },
                Err(_) => false,
            },
    {
        if find_key_index(&self.layouts, component.0).is_some() {
            return Err(EcsError::DuplicateComponent);
        }
        if size == 0 || !crate::column::check_align(align) {
            return Err(EcsError::TypeLayoutMismatch);
        }
        let ghost pre = *self;
        self.layouts.push((component.0, (size, align)));
        proof {
            lemma_find_key(pre.layouts@, component.0);
            lemma_find_key_push(pre.layouts@, (component.0, (size, align)), component.0);
            assert(self.registered(component.0));
            assert(self.size_of(component.0) == size);
            assert(self.align_of(component.0) == align);
            assert forall|c2: u64|
                c2 != component.0 implies self.registered(c2) == pre.registered(c2) && (
            pre.registered(c2) ==> self.size_of(c2) == pre.size_of(c2) && self.align_of(c2)
                == pre.align_of(c2)) by {
                lemma_find_key(pre.layouts@, c2);
                lemma_find_key_push(pre.layouts@, (component.0, (size, align)), c2);
            }
            assert forall|i: int, j: int|
                0 <= i < j < self.layouts@.len() implies self.layouts@[i].0
                != self.layouts@[j].0 by {
                if j == pre.layouts@.len() {
                    assert(self.layouts@[i] == pre.layouts@[i]);
                    assert(!has_key(pre.layouts@, component.0));
                }
            }
            assert forall|k: int|
                0 <= k < self.layouts@.len() implies (#[trigger] self.layouts@[k]).1.0 >= 1
                && valid_align(self.layouts@[k].1.1) by {
                if k < pre.layouts@.len() {
                    assert(self.layouts@[k] == pre.layouts@[k]);
                }
            }
            assert forall|t: int, j: int|
                #![trigger self.tables@[t].signature@[j]]
                0 <= t < self.tables@.len() && 0 <= j
                    < self.tables@[t].signature@.len() implies self.col_registered(t, j) by {
                let c = self.tables@[t].signature@[j];
                assert(pre.col_registered(t, j));
                lemma_find_key(pre.layouts@, c);
                lemma_find_key_push(pre.layouts@, (component.0, (size, align)), c);
            }
        }
        Ok(())
    }

    /// Finds the table whose signature is exactly the strictly sorted `canon`,
    /// creating it (with freshly laid-out columns) when absent.
    fn find_or_create_table(&mut self, canon: &Vec<u64>) -> (t: usize)
        requires
            old(self).wf(),
            sorted_strict(canon@),
            forall|x: u64| canon@.contains(x) ==> old(self).registered(x),
        ensures
            final(self).wf(),
            final(self).table_by_entity@ == old(self).table_by_entity@,
            final(self).layouts@ == old(self).layouts@,
            t < final(self).tables@.len(),
            final(self).tables@[t as int].signature@ == canon@,
            forall|t2: int|
                0 <= t2 < old(self).tables@.len() ==> final(self).tables@[t2] == old(
                    self,
                ).tables@[t2],
            if old(self).has_table(canon@.to_set()) {
                final(self).tables@ == old(self).tables@ && (t as int) < old(self).tables@.len()
            } else {
                final(self).tables@.len() == old(self).tables@.len() + 1 && t as int == old(
                    self,
                ).tables@.len() && final(self).tables@[t as int].entities@ == Seq::<u64>::empty()
            },
    {
        let n = self.tables.len();
        let mut t: usize = 0;
        while t < n
            invariant
                t <= n,
                n == self.tables@.len(),
                *self == *old(self),
                old(self).wf(),
                sorted_strict(canon@),
                forall|t2: int| 0 <= t2 < t ==> (#[trigger] self.tables@[t2]).signature@ != canon@,
            decreases n - t,
        {
            if ids_equal(&self.tables[t].signature, canon) {
                proof {
                    assert(self.tables@[t as int].signature@.to_set() == canon@.to_set());
                    assert(self.has_table(canon@.to_set()));
                }
                return t;
            }
            t = t + 1;
        }
        proof {
            if self.has_table(canon@.to_set()) {
                let t2 = choose|t2: int|
                    0 <= t2 < self.tables@.len() && (#[trigger] self.tables@[t2]).signature@.to_set()
                        == canon@.to_set();
                lemma_sorted_set_unique(self.tables@[t2].signature@, canon@);
            }
        }
        let m = canon.len();
        let mut sizes: Vec<usize> = Vec::new();
        let mut aligns: Vec<usize> = Vec::new();
        let mut j: usize = 0;
        while j < m
            invariant
                j <= m,
                m == canon@.len(),
                *self == *old(self),
                old(self).wf(),
                forall|x: u64| canon@.contains(x) ==> old(self).registered(x),
                sizes@.len() == j,
                aligns@.len() == j,
                forall|j2: int| 0 <= j2 < j ==> #[trigger] sizes@[j2] == old(self).size_of(canon@[j2]),
                forall|j2: int| 0 <= j2 < j ==> #[trigger] aligns@[j2] == old(self).align_of(canon@[j2]),
            decreases m - j,
        {
            let c = canon[j];
            proof {
                assert(canon@.contains(canon@[j as int]));
            }
            let li = match find_key_index(&self.layouts, c) {
                Some(li) => li,
                None => unreached(),
            };
            let ghost ps = sizes@;
            let ghost pa = aligns@;
            sizes.push(self.layouts[li].1.0);
            aligns.push(self.layouts[li].1.1);
            proof {
                assert forall|j2: int|
                    0 <= j2 < j + 1 implies #[trigger] sizes@[j2] == old(self).size_of(canon@[j2])
                    && #[trigger] aligns@[j2] == old(self).align_of(canon@[j2]) by {
                    if j2 < j {
                        assert(sizes@[j2] == ps[j2]);
                        assert(aligns@[j2] == pa[j2]);
                    } else {
                        assert(sizes@[j2] == old(self).size_of(canon@[j as int]));
                        assert(aligns@[j2] == old(self).align_of(canon@[j as int]));
                    }
                }
            }
            j = j + 1;
        }
        proof {
            assert forall|j2: int| 0 <= j2 < m implies #[trigger] sizes@[j2] >= 1 by {
                assert(canon@.contains(canon@[j2]));
                lemma_find_key(self.layouts@, canon@[j2]);
                assert(sizes@[j2] == old(self).size_of(canon@[j2]));
            }
            assert forall|j2: int| 0 <= j2 < m implies valid_align(#[trigger] aligns@[j2]) by {
                assert(canon@.contains(canon@[j2]));
                lemma_find_key(self.layouts@, canon@[j2]);
                assert(aligns@[j2] == old(self).align_of(canon@[j2]));
            }
        }
        let ghost pre = *self;
        let tbl = Table::create(copy_ids(canon), &sizes, &aligns);
        self.tables.push(tbl);
        proof {
            let nn = pre.tables@.len() as int;
            assert forall|t1: int, t2: int|
                0 <= t1 < t2 < self.tables@.len() implies self.tables@[t1].signature@
                != self.tables@[t2].signature@ by {
                if t2 == nn {
                    assert(self.tables@[t1] == pre.tables@[t1]);
                }
            }
            assert forall|t2: int, i: int|
                #![trigger self.tables@[t2].entities@[i]]
                0 <= t2 < self.tables@.len() && 0 <= i
                    < self.tables@[t2].entities@.len() implies self.entity_indexed(
                self.tables@[t2].entities@[i],
                t2,
            ) by {
                if t2 < nn {
                    assert(pre.entity_indexed(pre.tables@[t2].entities@[i], t2));
                }
            }
            assert forall|t2: int, j2: int|
                #![trigger self.tables@[t2].signature@[j2]]
                0 <= t2 < self.tables@.len() && 0 <= j2
                    < self.tables@[t2].signature@.len() implies self.col_registered(t2, j2) by {
                if t2 < nn {
                    assert(pre.col_registered(t2, j2));
                } else {
                    assert(canon@.contains(canon@[j2]));
                    lemma_find_key(self.layouts@, canon@[j2]);
                }
            }
        }
        n
    }

    /// Canonicalizes a component set and returns the id of the table carrying
    /// exactly that set, creating the table when absent. Two calls naming the
    /// same set, in any order, return the same id. Every named component must
    /// be registered.
    pub fn get_or_create_table(&mut self, components: &Vec<ComponentId>) -> (r: Result<
        TableId,
        EcsError,
    >)
        requires
            old(self).wf(),
        ensures
            final(self).wf(),
            final(self).table_by_entity@ == old(self).table_by_entity@,
            final(self).layouts@ == old(self).layouts@,
            forall|e: u64| entity_unchanged(*old(self), *final(self), e),
            match r {
                Ok(tid) => {
                    &&& forall|k: int|
                        0 <= k < components@.len() ==> old(self).registered(
                            (#[trigger] components@[k]).0,
                        )
                    &&& (tid.0 as int) < final(self).tables@.len()
                    &&& final(self).tables@[tid.0 as int].signature@.to_set() == ids_set(
                        components@,
                    )
                    &&& sorted_strict(final(self).tables@[tid.0 as int].signature@)
                    &&& if old(self).has_table(ids_set(components@)) {
                        &&& final(self).tables@ == old(self).tables@
                        &&& (tid.0 as int) < old(self).tables@.len()
                    } else {
                        &&& final(self).tables@.len() == old(self).tables@.len() + 1
                        &&& tid.0 as int == old(self).tables@.len()
                        &&& final(self).tables@[tid.0 as int].entities@ == Seq::<u64>::empty()
                        &&& forall|t2: int|
                            0 <= t2 < old(self).tables@.len() ==> final(self).tables@[t2] == old(
                                self,
                            ).tables@[t2]
                    }
                },
                Err(e) => {
                    &&& e == EcsError::TypeLayoutMismatch
                    &&& exists|k: int|
                        0 <= k < components@.len() && !old(self).registered(
                            (#[trigger] components@[k]).0,
                        )
                    &&& *final(self) == *old(self)
                },
            },
    {
        let m = components.len();
        let mut ids: Vec<u64> = Vec::new();
        let mut k: usize = 0;
        while k < m
            invariant
                k <= m,
                m == components@.len(),
                *self == *old(self),
                old(self).wf(),
                ids@.len() == k,
                forall|k2: int| 0 <= k2 < k ==> #[trigger] ids@[k2] == components@[k2].0,
                forall|k2: int|
                    0 <= k2 < k ==> old(self).registered((#[trigger] components@[k2]).0),
            decreases m - k,
        {
            if find_key_index(&self.layouts, components[k].0).is_none() {
                return Err(EcsError::TypeLayoutMismatch);
            }
            ids.push(components[k].0);
            k = k + 1;
        }
        proof {
            assert(ids@ =~= id_seq(components@));
        }
        let canon = canon_ids(&ids);
        proof {
            assert forall|x: u64| canon@.contains(x) implies self.registered(x) by {
                assert(canon@.to_set().contains(x));
                assert(ids@.to_set().contains(x));
                let w = choose|w: int| 0 <= w < ids@.len() && ids@[w] == x;
                assert(ids@[w] == components@[w].0);
                assert(self.registered(components@[w].0));
            }
        }
        let ghost pre = *self;
        let t = self.find_or_create_table(&canon);
        proof {
            assert(canon@.to_set() == ids_set(components@));
            lemma_entities_untouched(pre, *self);
        }
        Ok(TableId(t as u64))
    }

    /// Creates a row for `entity` holding exactly the supplied component
    /// values: the entity's first signature is the key set of `values`. The
    /// matching table is found or created, the row inserted, and the entity
    /// indexed, as one operation; on any failure nothing has changed.
    #[verifier::rlimit(100)]
    pub fn spawn_entity(&mut self, entity: EntityId, values: &Vec<(ComponentId, Vec<u8>)>) -> (r:
        Result<(), EcsError>)
        requires
            old(self).wf(),
        ensures
            final(self).wf(),
            final(self).layouts@ == old(self).layouts@,
            match r {
                Ok(()) => {
                    &&& !old(self).live(entity.0)
                    &&& distinct_cids(values@)
                    &&& old(self).values_layout_ok(values@)
                    &&& final(self).live(entity.0)
                    &&& sorted_strict(final(self).sig_of(entity.0))
                    &&& final(self).sig_of(entity.0).to_set() == cid_set(values@)
                    &&& forall|k: int|
                        0 <= k < values@.len() ==> final(self).value_of(
                            entity.0,
                            (#[trigger] values@[k]).0.0,
                        ) == values@[k].1@
                    &&& forall|e2: u64|
                        e2 != entity.0 ==> entity_unchanged(*old(self), *final(self), e2)
                },
                Err(EcsError::DuplicateEntity) => {
                    &&& old(self).live(entity.0)
                    &&& *final(self) == *old(self)
                },
                Err(EcsError::SignatureMismatch) => {
                    &&& !old(self).live(entity.0)
                    &&& !distinct_cids(values@)
                    &&& *final(self) == *old(self)
                },
                Err(EcsError::TypeLayoutMismatch) => {
                    &&& !old(self).live(entity.0)
                    &&& distinct_cids(values@)
                    &&& !old(self).values_layout_ok(values@)
                    &&& *final(self) == *old(self)
                },
                Err(_) => false,
            },
    {
        if find_key_index(&self.table_by_entity, entity.0).is_some() {
            return Err(EcsError::DuplicateEntity);
        }
        let m = values.len();
        // No component may be supplied twice.
        let mut k1: usize = 0;
        while k1 < m
            invariant
                k1 <= m,
                m == values@.len(),
                *self == *old(self),
                old(self).wf(),
                !old(self).live(entity.0),
                forall|i: int, j2: int|
                    0 <= i < j2 < m && i < k1 ==> values@[i].0.0 != values@[j2].0.0,
            decreases m - k1,
        {
            let mut k2: usize = k1 + 1;
            while k2 < m
                invariant
                    k1 < k2 <= m || (k1 + 1 == k2 && k2 > m),
                    k1 < m,
                    m == values@.len(),
                    *self == *old(self),
                    old(self).wf(),
                    !old(self).live(entity.0),
                    forall|j2: int|
                        (k1 as int) < j2 < k2 ==> values@[k1 as int].0.0 != values@[j2].0.0,
                decreases m - k2,
            {
                if values[k1].0.0 == values[k2].0.0 {
                    return Err(EcsError::SignatureMismatch);
                }
                k2 = k2 + 1;
            }
            k1 = k1 + 1;
        }
        // Every supplied component must be registered, with matching length.
        let mut k: usize = 0;
        while k < m
            invariant
                k <= m,
                m == values@.len(),
                *self == *old(self),
                old(self).wf(),
                !old(self).live(entity.0),
                distinct_cids(values@),
                forall|k2: int|
                    0 <= k2 < k ==> old(self).registered((#[trigger] values@[k2]).0.0)
                        && values@[k2].1@.len() == old(self).size_of(values@[k2].0.0),
            decreases m - k,
        {
            let li = match find_key_index(&self.layouts, values[k].0.0) {
                Some(li) => li,
                None => {
                    return Err(EcsError::TypeLayoutMismatch);
                },
            };
            if values[k].1.len() != self.layouts[li].1.0 {
                return Err(EcsError::TypeLayoutMismatch);
            }
            k = k + 1;
        }
        // Canonicalize the key set and obtain the destination table.
        let mut ids: Vec<u64> = Vec::new();
        let mut k: usize = 0;
        while k < m
            invariant
                k <= m,
                m == values@.len(),
                *self == *old(self),
                ids@.len() == k,
                forall|k2: int| 0 <= k2 < k ==> #[trigger] ids@[k2] == values@[k2].0.0,
            decreases m - k,
        {
            ids.push(values[k].0.0);
            k = k + 1;
        }
        proof {
            assert(ids@ =~= values@.map_values(|p: (ComponentId, Vec<u8>)| p.0.0));
        }
        let canon = canon_ids(&ids);
        proof {
            assert forall|x: u64| canon@.contains(x) implies self.registered(x) by {
                assert(canon@.to_set().contains(x));
                assert(ids@.to_set().contains(x));
                let w = choose|w: int| 0 <= w < ids@.len() && ids@[w] == x;
                assert(self.registered(values@[w].0.0));
            }
        }
        let ghost pre = *self;
        let t = self.find_or_create_table(&canon);
        let ghost mid = *self;
        proof {
            lemma_entities_untouched(pre, mid);
        }
        // Copy the values into plain keyed pairs for the table.
        let mut pairs: Vec<(u64, Vec<u8>)> = Vec::new();
        let mut k: usize = 0;
        while k < m
            invariant
                k <= m,
                m == values@.len(),
                *self == mid,
                pairs@.len() == k,
                forall|k2: int|
                    0 <= k2 < k ==> (#[trigger] pairs@[k2]).0 == values@[k2].0.0
                        && pairs@[k2].1@ == values@[k2].1@,
            decreases m - k,
        {
            let b = copy_bytes(&values[k].1);
            pairs.push((values[k].0.0, b));
            k = k + 1;
        }
        proof {
            // The destination table does not yet hold the entity, the key set
            // of the pairs is exactly its signature, and every length fits.
            if mid.tables@[t as int].contains_entity(entity.0) {
                let i = choose|i: int|
                    0 <= i < mid.tables@[t as int].entities@.len() && mid.tables@[
                        t as int
                    ].entities@[i] == entity.0;
                assert(mid.entity_indexed(mid.tables@[t as int].entities@[i], t as int));
            }
            assert forall|j: int|
                0 <= j < canon@.len() implies has_key(pairs@, #[trigger] canon@[j]) by {
                assert(canon@.contains(canon@[j]));
                assert(canon@.to_set().contains(canon@[j]));
                assert(ids@.to_set().contains(canon@[j]));
                let w = choose|w: int| 0 <= w < ids@.len() && ids@[w] == canon@[j];
                assert(pairs@[w].0 == canon@[j]);
            }
            assert forall|k2: int|
                0 <= k2 < pairs@.len() implies canon@.contains((#[trigger] pairs@[k2]).0) by {
                assert(ids@[k2] == pairs@[k2].0);
                assert(ids@.contains(ids@[k2]));
                assert(ids@.to_set().contains(pairs@[k2].0));
                assert(canon@.to_set().contains(pairs@[k2].0));
            }
            assert forall|j: int|
                0 <= j < mid.tables@[t as int].signature@.len() implies value_for(
                pairs@,
                #[trigger] mid.tables@[t as int].signature@[j],
            ).len() == mid.tables@[t as int].cols@[j].element_size by {
                let c = mid.tables@[t as int].signature@[j];
                assert(mid.col_registered(t as int, j));
                lemma_find_key(pairs@, c);
                let f = find_key(pairs@, c);
                assert(pairs@[f].0 == c);
                assert(mid.values_layout_ok(values@));
                assert(values@[f].1@.len() == mid.size_of(values@[f].0.0));
            }
        }
        let res = self.tables[t].insert_row(entity.0, &pairs);
        let ghost post_t = self.tables@[t as int];
        proof {
            if res.is_err() {
                assert(false);
            }
        }
        self.table_by_entity.push((entity.0, t));
        proof {
            let tn = t as int;
            lemma_find_key(mid.table_by_entity@, entity.0);
            lemma_find_key_push(mid.table_by_entity@, (entity.0, t), entity.0);
            assert(self.live(entity.0));
            assert(self.table_of(entity.0) == tn);
            crate::table::lemma_col_positions(post_t);
            // The spawned entity's values read back exactly as supplied.
            assert forall|k2: int|
                0 <= k2 < values@.len() implies self.value_of(
                entity.0,
                (#[trigger] values@[k2]).0.0,
            ) == values@[k2].1@ by {
                let c = values@[k2].0.0;
                assert(ids@[k2] == c);
                assert(ids@.contains(c));
                assert(canon@.to_set().contains(c));
                assert(canon@.contains(c));
                let j = choose|j: int| 0 <= j < canon@.len() && canon@[j] == c;
                assert(post_t.col_of(c) == j);
                assert(post_t.cols@[j].elem(mid.tables@[tn].entities@.len() as int) == value_for(
                    pairs@,
                    canon@[j],
                ));
                assert forall|w: int| 0 <= w < k2 implies pairs@[w].0 != c by {
                    assert(values@[w].0.0 != values@[k2].0.0);
                }
                lemma_find_key_at(pairs@, c, k2);
                assert(post_t.row_of(entity.0) == mid.tables@[tn].entities@.len());
            }
            // The index still maps every other entity as before, and its
            // table holds its bytes unchanged.
            assert forall|e2: u64| e2 != entity.0 implies entity_unchanged(pre, *self, e2) by {
                lemma_find_key(mid.table_by_entity@, e2);
                lemma_find_key_push(mid.table_by_entity@, (entity.0, t), e2);
                assert(entity_unchanged(pre, mid, e2));
                assert(self.live(e2) == mid.live(e2));
                if pre.live(e2) {
                    let f = mid.tbe_index(e2);
                    assert(self.tbe_index(e2) == f);
                    assert(self.table_by_entity@[f] == mid.table_by_entity@[f]);
                    let t2 = mid.table_of(e2);
                    assert(self.table_of(e2) == t2);
                    assert(mid.tables@[t2].contains_entity(e2));
                    if t2 == tn {
                        assert(crate::table::preserves_entity(mid.tables@[tn], post_t, e2));
                        assert(post_t.signature@ == mid.tables@[tn].signature@);
                    } else {
                        assert(self.tables@[t2] == mid.tables@[t2]);
                    }
                    assert(self.sig_of(e2) == mid.sig_of(e2));
                    assert forall|c: u64| pre.sig_of(e2).contains(c) implies self.value_of(e2, c)
                        == pre.value_of(e2, c) by {
                        assert(mid.sig_of(e2).contains(c));
                        assert(mid.value_of(e2, c) == pre.value_of(e2, c));
                        if t2 == tn {
                            assert(mid.tables@[tn].has_component(c));
                            assert(post_t.value_of(e2, c) == mid.tables@[tn].value_of(e2, c));
                        }
                    }
                }
            }
            // The database invariant is restored.
            assert forall|k2: int|
                0 <= k2 < self.table_by_entity@.len() implies (#[trigger] self.table_by_entity@[
                k2
            ]).1 < self.tables@.len() && self.tables@[self.table_by_entity@[k2].1 as int].contains_entity(
                self.table_by_entity@[k2].0,
            ) by {
                if k2 < mid.table_by_entity@.len() {
                    assert(self.table_by_entity@[k2] == mid.table_by_entity@[k2]);
                    let e2 = mid.table_by_entity@[k2].0;
                    let t2 = mid.table_by_entity@[k2].1 as int;
                    assert(mid.tables@[t2].contains_entity(e2));
                    assert(e2 != entity.0);
                    if t2 == tn {
                        assert(crate::table::preserves_entity(mid.tables@[tn], post_t, e2));
                    } else {
                        assert(self.tables@[t2] == mid.tables@[t2]);
                    }
                }
            }
            assert forall|i: int, j2: int|
                0 <= i < j2 < self.table_by_entity@.len() implies self.table_by_entity@[i].0
                != self.table_by_entity@[j2].0 by {
                if j2 == mid.table_by_entity@.len() {
                    assert(self.table_by_entity@[i] == mid.table_by_entity@[i]);
                    assert(!has_key(mid.table_by_entity@, entity.0));
                }
            }
            assert forall|t2: int, i: int|
                #![trigger self.tables@[t2].entities@[i]]
                0 <= t2 < self.tables@.len() && 0 <= i
                    < self.tables@[t2].entities@.len() implies self.entity_indexed(
                self.tables@[t2].entities@[i],
                t2,
            ) by {
                let e2 = self.tables@[t2].entities@[i];
                if t2 == tn && i == mid.tables@[tn].entities@.len() {
                    assert(e2 == entity.0);
                } else {
                    if t2 == tn {
                        assert(self.tables@[tn].entities@ == mid.tables@[tn].entities@.push(
                            entity.0,
                        ));
                        assert(e2 == mid.tables@[t2].entities@[i]);
                    } else {
                        assert(self.tables@[t2] == mid.tables@[t2]);
                    }
                    assert(mid.entity_indexed(e2, t2));
                    assert(e2 != entity.0);
                    lemma_find_key(mid.table_by_entity@, e2);
                    lemma_find_key_push(mid.table_by_entity@, (entity.0, t), e2);
                }
            }
            assert forall|t2: int, j2: int|
                #![trigger self.tables@[t2].signature@[j2]]
                0 <= t2 < self.tables@.len() && 0 <= j2
                    < self.tables@[t2].signature@.len() implies self.col_registered(t2, j2) by {
                if t2 == tn {
                    assert(mid.col_registered(t2, j2));
                    assert(post_t.cols@[j2].element_size == mid.tables@[tn].cols@[j2].element_size);
                } else {
                    assert(self.tables@[t2] == mid.tables@[t2]);
                    assert(mid.col_registered(t2, j2));
                }
            }
            assert forall|t1: int, t2: int|
                0 <= t1 < t2 < self.tables@.len() implies self.tables@[t1].signature@
                != self.tables@[t2].signature@ by {
                assert(mid.tables@[t1].signature@ != mid.tables@[t2].signature@);
                if t1 == tn {
                    assert(self.tables@[t1].signature@ == mid.tables@[t1].signature@);
                }
                if t2 == tn {
                    assert(self.tables@[t2].signature@ == mid.tables@[t2].signature@);
                }
            }
            assert(canon@.to_set() == cid_set(values@));
        }
        Ok(())
    }

    /// Adds `component` with value `bytes` to `entity`, migrating its row to
    /// the table whose signature is the old one plus `component`: the row is
    /// removed from the source table, every existing value carried over
    /// byte-for-byte, and the new value appended, as one operation. All
    /// validation precedes any mutation, so on failure nothing has changed.
    #[verifier::rlimit(100)]
    pub fn add_component(&mut self, entity: EntityId, component: ComponentId, bytes: &Vec<u8>) -> (r:
        Result<(), EcsError>)
        requires
            old(self).wf(),
        ensures
            final(self).wf(),
            final(self).layouts@ == old(self).layouts@,
            match r {
                Ok(()) => {
                    &&& old(self).live(entity.0)
                    &&& !old(self).sig_of(entity.0).contains(component.0)
                    &&& old(self).registered(component.0)
                    &&& bytes@.len() == old(self).size_of(component.0)
                    &&& final(self).live(entity.0)
                    &&& sorted_strict(final(self).sig_of(entity.0))
                    &&& final(self).sig_of(entity.0).to_set() == old(self).sig_of(
                        entity.0,
                    ).to_set().insert(component.0)
                    &&& final(self).value_of(entity.0, component.0) == bytes@
                    &&& forall|c2: u64|
                        old(self).sig_of(entity.0).contains(c2) ==> final(self).value_of(
                            entity.0,
                            c2,
                        ) == old(self).value_of(entity.0, c2)
                    &&& forall|e2: u64|
                        e2 != entity.0 ==> entity_unchanged(*old(self), *final(self), e2)
                },
                Err(EcsError::EntityNotFound) => !old(self).live(entity.0) && *final(self) == *old(
                    self,
                ),
                Err(EcsError::DuplicateComponent) => {
                    &&& old(self).live(entity.0)
                    &&& old(self).sig_of(entity.0).contains(component.0)
                    &&& *final(self) == *old(self)
                },
                Err(EcsError::TypeLayoutMismatch) => {
                    &&& old(self).live(entity.0)
                    &&& !old(self).sig_of(entity.0).contains(component.0)
                    &&& (!old(self).registered(component.0) || bytes@.len() != old(self).size_of(
                        component.0,
                    ))
                    &&& *final(self) == *old(self)
                },
                Err(_) => false,
            },
    {
        let k = match find_key_index(&self.table_by_entity, entity.0) {
            Some(k) => k,
            None => {
                return Err(EcsError::EntityNotFound);
            },
        };
        let t_src = self.table_by_entity[k].1;
        proof {
            assert((#[trigger] self.table_by_entity@[k as int]).1 < self.tables@.len());
            assert(self.tables@[t_src as int].contains_entity(entity.0));
        }
        if crate::order::ids_contain(&self.tables[t_src].signature, component.0) {
            return Err(EcsError::DuplicateComponent);
        }
        let li = match find_key_index(&self.layouts, component.0) {
            Some(li) => li,
            None => {
                return Err(EcsError::TypeLayoutMismatch);
            },
        };
        if bytes.len() != self.layouts[li].1.0 {
            return Err(EcsError::TypeLayoutMismatch);
        }
        let dest = crate::order::insert_id(&self.tables[t_src].signature, component.0);
        let ghost pre = *self;
        let ghost sn = t_src as int;
        let ghost src_sig = pre.tables@[sn].signature@;
        proof {
            assert forall|x: u64| dest@.contains(x) implies pre.registered(x) by {
                assert(dest@.to_set().contains(x));
                if x != component.0 {
                    assert(src_sig.to_set().contains(x));
                    assert(src_sig.contains(x));
                    let j = choose|j: int| 0 <= j < src_sig.len() && src_sig[j] == x;
                    assert(pre.col_registered(sn, j));
                }
            }
        }
        let t_dst = self.find_or_create_table(&dest);
        let ghost mid = *self;
        let ghost dn = t_dst as int;
        proof {
            lemma_entities_untouched(pre, mid);
            assert(mid.tables@[dn].signature@ == dest@);
            assert(mid.tables@[sn] == pre.tables@[sn]);
            if sn == dn {
                assert(dest@.to_set().contains(component.0));
                assert(src_sig.contains(component.0));
            }
            assert(sn != dn);
            // The destination does not hold the entity.
            if mid.tables@[dn].contains_entity(entity.0) {
                let i = choose|i: int|
                    0 <= i < mid.tables@[dn].entities@.len() && mid.tables@[dn].entities@[i]
                        == entity.0;
                assert(mid.entity_indexed(mid.tables@[dn].entities@[i], dn));
            }
        }
        // Phase one of the migration: take the row out of the source table,
        // holding its values.
        let removed = match self.tables[t_src].remove_row(entity.0) {
            Ok(v) => v,
            Err(_) => unreached(),
        };
        let ghost src_post = self.tables@[sn];
        let mut newvals = removed;
        let b = copy_bytes(bytes);
        newvals.push((component.0, b));
        proof {
            crate::table::lemma_col_positions(pre.tables@[sn]);
            let sl = src_sig.len() as int;
            assert(newvals@.len() == sl + 1);
            assert(forall|w: int| 0 <= w < sl ==> (#[trigger] newvals@[w]).0 == src_sig[w]);
            assert(newvals@[sl].0 == component.0);
            assert(newvals@[sl].1@ == bytes@);
            assert(self.tables@[dn] == mid.tables@[dn]);
            // The carried values' key set is exactly the destination signature.
            assert forall|j: int| 0 <= j < dest@.len() implies has_key(
                newvals@,
                #[trigger] dest@[j],
            ) by {
                assert(dest@.contains(dest@[j]));
                assert(dest@.to_set().contains(dest@[j]));
                if dest@[j] == component.0 {
                    assert(newvals@[sl].0 == dest@[j]);
                } else {
                    assert(src_sig.to_set().contains(dest@[j]));
                    assert(src_sig.contains(dest@[j]));
                    let w = choose|w: int| 0 <= w < src_sig.len() && src_sig[w] == dest@[j];
                    assert(newvals@[w].0 == dest@[j]);
                }
            }
            assert forall|k2: int|
                0 <= k2 < newvals@.len() implies dest@.contains((#[trigger] newvals@[k2]).0) by {
                if k2 < sl {
                    assert(src_sig.contains(src_sig[k2]));
                    assert(src_sig.to_set().contains(newvals@[k2].0));
                    assert(dest@.to_set().contains(newvals@[k2].0));
                } else {
                    assert(dest@.to_set().contains(component.0));
                }
            }
            assert forall|i: int, j2: int|
                0 <= i < j2 < newvals@.len() implies newvals@[i].0 != newvals@[j2].0 by {
                if j2 < sl {
                    assert(src_sig[i] < src_sig[j2]);
                } else {
                    assert(!src_sig.contains(component.0));
                    assert(newvals@[i].0 == src_sig[i]);
                    assert(src_sig.contains(src_sig[i]));
                }
            }
            // Every carried length matches the destination layout.
            assert forall|j: int|
                0 <= j < mid.tables@[dn].signature@.len() implies value_for(
                newvals@,
                #[trigger] mid.tables@[dn].signature@[j],
            ).len() == mid.tables@[dn].cols@[j].element_size by {
                let c = mid.tables@[dn].signature@[j];
                assert(mid.col_registered(dn, j));
                lemma_find_key(newvals@, c);
                let f = find_key(newvals@, c);
                assert(has_key(newvals@, c));
                assert(newvals@[f].0 == c);
                if f < sl {
                    assert(newvals@[f].1@ == pre.tables@[sn].value_of(entity.0, src_sig[f]));
                    assert(pre.tables@[sn].col_of(src_sig[f]) == f);
                    assert(pre.col_registered(sn, f));
                    assert(pre.tables@[sn].wf());
                    crate::order::lemma_find_u64(pre.tables@[sn].entities@, entity.0);
                    crate::column::lemma_elem_len(
                        pre.tables@[sn].cols@[f],
                        pre.tables@[sn].row_of(entity.0),
                    );
                } else {
                    assert(c == component.0);
                }
            }
        }
        // Phase two: insert the row, existing values plus the new one, into
        // the destination table.
        let res = self.tables[t_dst].insert_row(entity.0, &newvals);
        let ghost dst_post = self.tables@[dn];
        proof {
            if res.is_err() {
                assert(false);
            }
        }
        // Re-point the entity index at the destination table.
        self.table_by_entity[k] = (entity.0, t_dst);
        proof {
            let kn = k as int;
            let sl = src_sig.len() as int;
            assert(forall|k2: int|
                0 <= k2 < self.table_by_entity@.len() ==> (#[trigger] self.table_by_entity@[k2]).0
                    == mid.table_by_entity@[k2].0);
            crate::order::lemma_find_key_same_keys(
                self.table_by_entity@,
                mid.table_by_entity@,
                entity.0,
            );
            assert(self.tbe_index(entity.0) == kn);
            assert(self.table_of(entity.0) == dn);
            assert(self.sig_of(entity.0) == dest@);
            crate::table::lemma_col_positions(dst_post);
            crate::table::lemma_col_positions(pre.tables@[sn]);
            let new_row = mid.tables@[dn].entities@.len() as int;
            // The new component reads back as the supplied bytes.
            assert(dest@.to_set().contains(component.0));
            assert(dest@.contains(component.0));
            let jc = choose|jc: int| 0 <= jc < dest@.len() && dest@[jc] == component.0;
            assert(dst_post.col_of(component.0) == jc);
            assert forall|w: int| 0 <= w < sl implies newvals@[w].0 != component.0 by {
                assert(newvals@[w].0 == src_sig[w]);
                assert(src_sig.contains(src_sig[w]));
            }
            lemma_find_key_at(newvals@, component.0, sl);
            assert(dst_post.cols@[jc].elem(new_row) == value_for(newvals@, dest@[jc]));
            assert(self.value_of(entity.0, component.0) == bytes@);
            // Every old component reads back unchanged.
            assert forall|c2: u64| src_sig.contains(c2) implies self.value_of(entity.0, c2)
                == pre.value_of(entity.0, c2) by {
                let w0 = pre.tables@[sn].col_of(c2);
                crate::order::lemma_find_u64(src_sig, c2);
                assert(src_sig[w0] == c2);
                assert forall|w: int| 0 <= w < w0 implies newvals@[w].0 != c2 by {
                    assert(newvals@[w].0 == src_sig[w]);
                    assert(src_sig[w] != src_sig[w0]);
                }
                lemma_find_key_at(newvals@, c2, w0);
                assert(value_for(newvals@, c2) == pre.tables@[sn].value_of(entity.0, c2));
                assert(src_sig.to_set().contains(c2));
                assert(dest@.to_set().contains(c2));
                assert(dest@.contains(c2));
                let j2 = choose|j2: int| 0 <= j2 < dest@.len() && dest@[j2] == c2;
                assert(dst_post.col_of(c2) == j2);
                assert(dst_post.cols@[j2].elem(new_row) == value_for(newvals@, dest@[j2]));
                assert(dst_post.row_of(entity.0) == new_row);
                assert(pre.table_of(entity.0) == sn);
            }
            // Every other entity is untouched.
            assert forall|e2: u64| e2 != entity.0 implies entity_unchanged(pre, *self, e2) by {
                crate::order::lemma_find_key_same_keys(
                    self.table_by_entity@,
                    mid.table_by_entity@,
                    e2,
                );
                assert(entity_unchanged(pre, mid, e2));
                if pre.live(e2) {
                    let f = mid.tbe_index(e2);
                    lemma_find_key(mid.table_by_entity@, e2);
                    assert(f != kn);
                    assert(self.table_by_entity@[f] == mid.table_by_entity@[f]);
                    let t2 = mid.table_of(e2);
                    assert(self.table_of(e2) == t2);
                    assert(mid.tables@[t2].contains_entity(e2));
                    if t2 == sn {
                        assert(crate::table::preserves_entity(mid.tables@[sn], src_post, e2));
                        assert(src_post.signature@ == src_sig);
                        assert(self.tables@[sn] == src_post);
                    } else if t2 == dn {
                        assert(crate::table::preserves_entity(mid.tables@[dn], dst_post, e2));
                    } else {
                        assert(self.tables@[t2] == mid.tables@[t2]);
                    }
                    assert(self.sig_of(e2) == mid.sig_of(e2));
                    assert forall|c: u64| pre.sig_of(e2).contains(c) implies self.value_of(e2, c)
                        == pre.value_of(e2, c) by {
                        assert(mid.sig_of(e2).contains(c));
                        assert(mid.value_of(e2, c) == pre.value_of(e2, c));
                        if t2 == sn {
                            assert(mid.tables@[sn].has_component(c));
                            assert(src_post.value_of(e2, c) == mid.tables@[sn].value_of(e2, c));
                        } else if t2 == dn {
                            assert(mid.tables@[dn].has_component(c));
                            assert(dst_post.value_of(e2, c) == mid.tables@[dn].value_of(e2, c));
                        }
                    }
                }
            }
            // The database invariant is restored.
            assert forall|i: int, j2: int|
                0 <= i < j2 < self.table_by_entity@.len() implies self.table_by_entity@[i].0
                != self.table_by_entity@[j2].0 by {
                assert(self.table_by_entity@[i].0 == mid.table_by_entity@[i].0);
                assert(self.table_by_entity@[j2].0 == mid.table_by_entity@[j2].0);
            }
            assert forall|k2: int|
                0 <= k2 < self.table_by_entity@.len() implies (#[trigger] self.table_by_entity@[
                k2
            ]).1 < self.tables@.len() && self.tables@[self.table_by_entity@[k2].1 as int].contains_entity(
                self.table_by_entity@[k2].0,
            ) by {
                if k2 == kn {
                    assert(self.table_by_entity@[k2] == (entity.0, t_dst));
                    assert(dst_post.contains_entity(entity.0));
                } else {
                    assert(self.table_by_entity@[k2] == mid.table_by_entity@[k2]);
                    let e2 = mid.table_by_entity@[k2].0;
                    let t2 = mid.table_by_entity@[k2].1 as int;
                    assert(mid.tables@[t2].contains_entity(e2));
                    assert(e2 != entity.0);
                    if t2 == sn {
                        assert(crate::table::preserves_entity(mid.tables@[sn], src_post, e2));
                    } else if t2 == dn {
                        assert(crate::table::preserves_entity(mid.tables@[dn], dst_post, e2));
                    } else {
                        assert(self.tables@[t2] == mid.tables@[t2]);
                    }
                }
            }
            assert forall|t2: int, i: int|
                #![trigger self.tables@[t2].entities@[i]]
                0 <= t2 < self.tables@.len() && 0 <= i
                    < self.tables@[t2].entities@.len() implies self.entity_indexed(
                self.tables@[t2].entities@[i],
                t2,
            ) by {
                let e3 = self.tables@[t2].entities@[i];
                crate::order::lemma_find_key_same_keys(
                    self.table_by_entity@,
                    mid.table_by_entity@,
                    e3,
                );
                if t2 == dn && i == new_row {
                    assert(e3 == entity.0);
                    assert(self.table_by_entity@[kn].1 == t_dst);
                } else {
                    if t2 == sn {
                        assert(!src_post.contains_entity(entity.0));
                        if e3 == entity.0 {
                            assert(src_post.entities@.contains(e3));
                        }
                        assert(crate::table::preserves_entity(mid.tables@[sn], src_post, e3));
                        assert(src_post.entities@.contains(e3));
                        assert(mid.tables@[sn].contains_entity(e3));
                        let i0 = choose|i0: int|
                            0 <= i0 < mid.tables@[sn].entities@.len() && mid.tables@[
                                sn
                            ].entities@[i0] == e3;
                        assert(mid.entity_indexed(mid.tables@[sn].entities@[i0], sn));
                    } else if t2 == dn {
                        assert(self.tables@[dn].entities@ == mid.tables@[dn].entities@.push(
                            entity.0,
                        ));
                        assert(e3 == mid.tables@[dn].entities@[i]);
                        assert(mid.entity_indexed(e3, dn));
                        assert(e3 != entity.0);
                    } else {
                        assert(self.tables@[t2] == mid.tables@[t2]);
                        assert(mid.entity_indexed(e3, t2));
                        if e3 == entity.0 {
                            assert(mid.tbe_index(entity.0) == kn);
                            assert(mid.table_by_entity@[kn].1 as int == sn);
                        }
                        assert(e3 != entity.0);
                    }
                    let f3 = mid.tbe_index(e3);
                    lemma_find_key(mid.table_by_entity@, e3);
                    assert(0 <= f3 < mid.table_by_entity@.len());
                    assert(mid.table_by_entity@[f3].0 == e3);
                    assert(mid.table_by_entity@[kn].0 == entity.0);
                    assert(f3 != kn);
                    assert(self.table_by_entity@[f3] == mid.table_by_entity@[f3]);
                }
            }
            assert forall|t2: int, j2: int|
                #![trigger self.tables@[t2].signature@[j2]]
                0 <= t2 < self.tables@.len() && 0 <= j2
                    < self.tables@[t2].signature@.len() implies self.col_registered(t2, j2) by {
                if t2 == sn {
                    assert(src_post.signature@ == mid.tables@[sn].signature@);
                    assert(mid.col_registered(t2, j2));
                    assert(src_post.cols@[j2].element_size == mid.tables@[sn].cols@[
                        j2
                    ].element_size);
                } else if t2 == dn {
                    assert(dst_post.signature@ == mid.tables@[dn].signature@);
                    assert(mid.col_registered(t2, j2));
                    assert(dst_post.cols@[j2].element_size == mid.tables@[dn].cols@[
                        j2
                    ].element_size);
                } else {
                    assert(self.tables@[t2] == mid.tables@[t2]);
                    assert(mid.col_registered(t2, j2));
                }
            }
            assert forall|t1: int, t2: int|
                0 <= t1 < t2 < self.tables@.len() implies self.tables@[t1].signature@
                != self.tables@[t2].signature@ by {
                assert(mid.tables@[t1].signature@ != mid.tables@[t2].signature@);
                assert(self.tables@[t1].signature@ == mid.tables@[t1].signature@);
                assert(self.tables@[t2].signature@ == mid.tables@[t2].signature@);
            }
        }
        Ok(())
    }

    /// Removes `component` from `entity`, migrating its row to the table
    /// whose signature is the old one minus `component`: the row is removed
    /// from the source table, every other value carried over byte-for-byte,
    /// and the removed component's value dropped, as one operation.
    #[verifier::rlimit(100)]
    pub fn remove_component(&mut self, entity: EntityId, component: ComponentId) -> (r: Result<
        (),
        EcsError,
    >)
        requires
            old(self).wf(),
        ensures
            final(self).wf(),
            final(self).layouts@ == old(self).layouts@,
            match r {
                Ok(()) => {
                    &&& old(self).live(entity.0)
                    &&& old(self).sig_of(entity.0).contains(component.0)
                    &&& final(self).live(entity.0)
                    &&& sorted_strict(final(self).sig_of(entity.0))
                    &&& final(self).sig_of(entity.0).to_set() == old(self).sig_of(
                        entity.0,
                    ).to_set().remove(component.0)
                    &&& !final(self).sig_of(entity.0).contains(component.0)
                    &&& forall|c2: u64|
                        old(self).sig_of(entity.0).contains(c2) && c2 != component.0 ==> final(self).value_of(entity.0, c2) == old(self).value_of(entity.0, c2)
                    &&& forall|e2: u64|
                        e2 != entity.0 ==> entity_unchanged(*old(self), *final(self), e2)
                },
                Err(EcsError::EntityNotFound) => !old(self).live(entity.0) && *final(self) == *old(
                    self,
                ),
                Err(EcsError::ComponentNotFound) => {
                    &&& old(self).live(entity.0)
                    &&& !old(self).sig_of(entity.0).contains(component.0)
                    &&& *final(self) == *old(self)
                },
                Err(_) => false,
            },
    {
        let k = match find_key_index(&self.table_by_entity, entity.0) {
            Some(k) => k,
            None => {
                return Err(EcsError::EntityNotFound);
            },
        };
        let t_src = self.table_by_entity[k].1;
        proof {
            assert((#[trigger] self.table_by_entity@[k as int]).1 < self.tables@.len());
            assert(self.tables@[t_src as int].contains_entity(entity.0));
        }
        let j0 = match find_index(&self.tables[t_src].signature, component.0) {
            Some(j0) => j0,
            None => {
                return Err(EcsError::ComponentNotFound);
            },
        };
        let dest = crate::order::remove_id(&self.tables[t_src].signature, component.0);
        let ghost pre = *self;
        let ghost sn = t_src as int;
        let ghost src_sig = pre.tables@[sn].signature@;
        proof {
            assert forall|x: u64| dest@.contains(x) implies pre.registered(x) by {
                assert(dest@.to_set().contains(x));
                assert(src_sig.to_set().contains(x));
                assert(src_sig.contains(x));
                let j = choose|j: int| 0 <= j < src_sig.len() && src_sig[j] == x;
                assert(pre.col_registered(sn, j));
            }
        }
        let t_dst = self.find_or_create_table(&dest);
        let ghost mid = *self;
        let ghost dn = t_dst as int;
        proof {
            lemma_entities_untouched(pre, mid);
            assert(mid.tables@[dn].signature@ == dest@);
            assert(mid.tables@[sn] == pre.tables@[sn]);
            if sn == dn {
                assert(src_sig.contains(src_sig[j0 as int]));
                assert(src_sig.to_set().contains(component.0));
                assert(dest@.to_set().contains(component.0));
            }
            assert(sn != dn);
            if mid.tables@[dn].contains_entity(entity.0) {
                let i = choose|i: int|
                    0 <= i < mid.tables@[dn].entities@.len() && mid.tables@[dn].entities@[i]
                        == entity.0;
                assert(mid.entity_indexed(mid.tables@[dn].entities@[i], dn));
            }
        }
        // Phase one: take the row out of the source table.
        let removed = match self.tables[t_src].remove_row(entity.0) {
            Ok(v) => v,
            Err(_) => unreached(),
        };
        let ghost src_post = self.tables@[sn];
        // Carry every value except the removed component's, in order.
        let mut newvals: Vec<(u64, Vec<u8>)> = Vec::new();
        let sl = removed.len();
        let mut j: usize = 0;
        while j < sl
            invariant
                j <= sl,
                sl == src_sig.len(),
                j0 < sl,
                src_sig[j0 as int] == component.0,
                sorted_strict(src_sig),
                removed@.len() == sl,
                forall|w: int|
                    0 <= w < sl ==> (#[trigger] removed@[w]).0 == src_sig[w] && removed@[w].1@
                        == pre.tables@[sn].value_of(entity.0, src_sig[w]),
                j <= j0 ==> newvals@.len() == j,
                j > j0 ==> newvals@.len() == j - 1,
                forall|w: int|
                    0 <= w < newvals@.len() ==> (#[trigger] newvals@[w]).0 == src_sig[(
                    if w < j0 {
                        w
                    } else {
                        w + 1
                    })] && newvals@[w].1@ == pre.tables@[sn].value_of(
                        entity.0,
                        src_sig[(if w < j0 {
                            w
                        } else {
                            w + 1
                        })],
                    ),
            decreases sl - j,
        {
            if removed[j].0 != component.0 {
                proof {
                    assert(removed@[j as int].0 == src_sig[j as int]);
                    assert(j != j0);
                }
                let b = copy_bytes(&removed[j].1);
                newvals.push((removed[j].0, b));
            } else {
                proof {
                    if j != j0 {
                        assert(src_sig[j as int] != src_sig[j0 as int]);
                    }
                    assert(j == j0);
                }
            }
            j = j + 1;
        }
        proof {
            crate::table::lemma_col_positions(pre.tables@[sn]);
            let sli = sl as int;
            let j0i = j0 as int;
            assert(newvals@.len() == sli - 1);
            // The carried keys are exactly the destination signature set.
            assert forall|jd: int| 0 <= jd < dest@.len() implies has_key(
                newvals@,
                #[trigger] dest@[jd],
            ) by {
                assert(dest@.contains(dest@[jd]));
                assert(dest@.to_set().contains(dest@[jd]));
                assert(src_sig.to_set().contains(dest@[jd]));
                assert(src_sig.contains(dest@[jd]));
                let w = choose|w: int| 0 <= w < src_sig.len() && src_sig[w] == dest@[jd];
                assert(dest@[jd] != component.0);
                assert(w != j0i);
                if w < j0i {
                    assert(newvals@[w].0 == dest@[jd]);
                } else {
                    assert(newvals@[w - 1].0 == src_sig[w]);
                }
            }
            assert forall|k2: int|
                0 <= k2 < newvals@.len() implies dest@.contains((#[trigger] newvals@[k2]).0) by {
                let w2: int = if k2 < j0i {
                    k2
                } else {
                    k2 + 1
                };
                assert(newvals@[k2].0 == src_sig[w2]);
                assert(src_sig.contains(src_sig[w2]));
                assert(src_sig.to_set().contains(src_sig[w2]));
                assert(w2 != j0i);
                assert(src_sig[w2] != src_sig[j0i]);
                assert(dest@.to_set().contains(src_sig[w2]));
            }
            assert forall|i: int, j2: int|
                0 <= i < j2 < newvals@.len() implies newvals@[i].0 != newvals@[j2].0 by {
                let wi: int = if i < j0i {
                    i
                } else {
                    i + 1
                };
                let wj: int = if j2 < j0i {
                    j2
                } else {
                    j2 + 1
                };
                assert(src_sig[wi] < src_sig[wj]);
            }
            // Carried lengths match the destination layout.
            assert(self.tables@[dn] == mid.tables@[dn]);
            assert forall|jd: int|
                0 <= jd < mid.tables@[dn].signature@.len() implies value_for(
                newvals@,
                #[trigger] mid.tables@[dn].signature@[jd],
            ).len() == mid.tables@[dn].cols@[jd].element_size by {
                let c = mid.tables@[dn].signature@[jd];
                assert(mid.col_registered(dn, jd));
                lemma_find_key(newvals@, c);
                let f = find_key(newvals@, c);
                assert(has_key(newvals@, c));
                assert(newvals@[f].0 == c);
                let w2: int = if f < j0i {
                    f
                } else {
                    f + 1
                };
                assert(newvals@[f].1@ == pre.tables@[sn].value_of(entity.0, src_sig[w2]));
                assert(pre.tables@[sn].col_of(src_sig[w2]) == w2);
                assert(pre.col_registered(sn, w2));
                assert(pre.tables@[sn].wf());
                crate::order::lemma_find_u64(pre.tables@[sn].entities@, entity.0);
                crate::column::lemma_elem_len(
                    pre.tables@[sn].cols@[w2],
                    pre.tables@[sn].row_of(entity.0),
                );
            }
        }
        // Phase two: insert the carried values into the destination table.
        let res = self.tables[t_dst].insert_row(entity.0, &newvals);
        let ghost dst_post = self.tables@[dn];
        proof {
            if res.is_err() {
                assert(false);
            }
        }
        // Re-point the entity index at the destination table.
        self.table_by_entity[k] = (entity.0, t_dst);
        proof {
            let kn = k as int;
            let sli = sl as int;
            let j0i = j0 as int;
            assert(forall|k2: int|
                0 <= k2 < self.table_by_entity@.len() ==> (#[trigger] self.table_by_entity@[k2]).0
                    == mid.table_by_entity@[k2].0);
            crate::order::lemma_find_key_same_keys(
                self.table_by_entity@,
                mid.table_by_entity@,
                entity.0,
            );
            assert(self.tbe_index(entity.0) == kn);
            assert(self.table_of(entity.0) == dn);
            assert(self.sig_of(entity.0) == dest@);
            if dest@.contains(component.0) {
                assert(dest@.to_set().contains(component.0));
                assert(src_sig.to_set().remove(component.0).contains(component.0));
            }
            crate::table::lemma_col_positions(dst_post);
            crate::table::lemma_col_positions(pre.tables@[sn]);
            let new_row = mid.tables@[dn].entities@.len() as int;
            // Every kept component reads back unchanged.
            assert forall|c2: u64|
                src_sig.contains(c2) && c2 != component.0 implies self.value_of(entity.0, c2)
                == pre.value_of(entity.0, c2) by {
                let w0 = pre.tables@[sn].col_of(c2);
                crate::order::lemma_find_u64(src_sig, c2);
                assert(src_sig[w0] == c2);
                assert(w0 != j0i);
                let f0: int = if w0 < j0i {
                    w0
                } else {
                    w0 - 1
                };
                assert(newvals@[f0].0 == c2);
                assert forall|w: int| 0 <= w < f0 implies newvals@[w].0 != c2 by {
                    let w2: int = if w < j0i {
                        w
                    } else {
                        w + 1
                    };
                    assert(newvals@[w].0 == src_sig[w2]);
                    assert(src_sig[w2] != src_sig[w0]);
                }
                lemma_find_key_at(newvals@, c2, f0);
                assert(value_for(newvals@, c2) == pre.tables@[sn].value_of(entity.0, c2));
                assert(src_sig.to_set().contains(c2));
                assert(dest@.to_set().contains(c2));
                assert(dest@.contains(c2));
                let j2 = choose|j2: int| 0 <= j2 < dest@.len() && dest@[j2] == c2;
                assert(dst_post.col_of(c2) == j2);
                assert(dst_post.cols@[j2].elem(new_row) == value_for(newvals@, dest@[j2]));
                assert(dst_post.row_of(entity.0) == new_row);
                assert(pre.table_of(entity.0) == sn);
            }
            // Every other entity is untouched.
            assert forall|e2: u64| e2 != entity.0 implies entity_unchanged(pre, *self, e2) by {
                crate::order::lemma_find_key_same_keys(
                    self.table_by_entity@,
                    mid.table_by_entity@,
                    e2,
                );
                assert(entity_unchanged(pre, mid, e2));
                if pre.live(e2) {
                    let f = mid.tbe_index(e2);
                    lemma_find_key(mid.table_by_entity@, e2);
                    assert(f != kn);
                    assert(self.table_by_entity@[f] == mid.table_by_entity@[f]);
                    let t2 = mid.table_of(e2);
                    assert(self.table_of(e2) == t2);
                    assert(mid.tables@[t2].contains_entity(e2));
                    if t2 == sn {
                        assert(crate::table::preserves_entity(mid.tables@[sn], src_post, e2));
                        assert(src_post.signature@ == src_sig);
                        assert(self.tables@[sn] == src_post);
                    } else if t2 == dn {
                        assert(crate::table::preserves_entity(mid.tables@[dn], dst_post, e2));
                    } else {
                        assert(self.tables@[t2] == mid.tables@[t2]);
                    }
                    assert(self.sig_of(e2) == mid.sig_of(e2));
                    assert forall|c: u64| pre.sig_of(e2).contains(c) implies self.value_of(e2, c)
                        == pre.value_of(e2, c) by {
                        assert(mid.sig_of(e2).contains(c));
                        assert(mid.value_of(e2, c) == pre.value_of(e2, c));
                        if t2 == sn {
                            assert(mid.tables@[sn].has_component(c));
                            assert(src_post.value_of(e2, c) == mid.tables@[sn].value_of(e2, c));
                        } else if t2 == dn {
                            assert(mid.tables@[dn].has_component(c));
                            assert(dst_post.value_of(e2, c) == mid.tables@[dn].value_of(e2, c));
                        }
                    }
                }
            }
            // The database invariant is restored.
            assert forall|i: int, j2: int|
                0 <= i < j2 < self.table_by_entity@.len() implies self.table_by_entity@[i].0
                != self.table_by_entity@[j2].0 by {
                assert(self.table_by_entity@[i].0 == mid.table_by_entity@[i].0);
                assert(self.table_by_entity@[j2].0 == mid.table_by_entity@[j2].0);
            }
            assert forall|k2: int|
                0 <= k2 < self.table_by_entity@.len() implies (#[trigger] self.table_by_entity@[
                k2
            ]).1 < self.tables@.len() && self.tables@[self.table_by_entity@[k2].1 as int].contains_entity(
                self.table_by_entity@[k2].0,
            ) by {
                if k2 == kn {
                    assert(self.table_by_entity@[k2] == (entity.0, t_dst));
                    assert(dst_post.contains_entity(entity.0));
                } else {
                    assert(self.table_by_entity@[k2] == mid.table_by_entity@[k2]);
                    let e2 = mid.table_by_entity@[k2].0;
                    let t2 = mid.table_by_entity@[k2].1 as int;
                    assert(mid.tables@[t2].contains_entity(e2));
                    assert(e2 != entity.0);
                    if t2 == sn {
                        assert(crate::table::preserves_entity(mid.tables@[sn], src_post, e2));
                    } else if t2 == dn {
                        assert(crate::table::preserves_entity(mid.tables@[dn], dst_post, e2));
                    } else {
                        assert(self.tables@[t2] == mid.tables@[t2]);
                    }
                }
            }
            assert forall|t2: int, i: int|
                #![trigger self.tables@[t2].entities@[i]]
                0 <= t2 < self.tables@.len() && 0 <= i
                    < self.tables@[t2].entities@.len() implies self.entity_indexed(
                self.tables@[t2].entities@[i],
                t2,
            ) by {
                let e3 = self.tables@[t2].entities@[i];
                crate::order::lemma_find_key_same_keys(
                    self.table_by_entity@,
                    mid.table_by_entity@,
                    e3,
                );
                if t2 == dn && i == new_row {
                    assert(e3 == entity.0);
                    assert(self.table_by_entity@[kn].1 == t_dst);
                } else {
                    if t2 == sn {
                        assert(!src_post.contains_entity(entity.0));
                        if e3 == entity.0 {
                            assert(src_post.entities@.contains(e3));
                        }
                        assert(crate::table::preserves_entity(mid.tables@[sn], src_post, e3));
                        assert(src_post.entities@.contains(e3));
                        assert(mid.tables@[sn].contains_entity(e3));
                        let i0 = choose|i0: int|
                            0 <= i0 < mid.tables@[sn].entities@.len() && mid.tables@[
                                sn
                            ].entities@[i0] == e3;
                        assert(mid.entity_indexed(mid.tables@[sn].entities@[i0], sn));
                    } else if t2 == dn {
                        assert(self.tables@[dn].entities@ == mid.tables@[dn].entities@.push(
                            entity.0,
                        ));
                        assert(e3 == mid.tables@[dn].entities@[i]);
                        assert(mid.entity_indexed(e3, dn));
                        assert(e3 != entity.0);
                    } else {
                        assert(self.tables@[t2] == mid.tables@[t2]);
                        assert(mid.entity_indexed(e3, t2));
                        if e3 == entity.0 {
                            assert(mid.tbe_index(entity.0) == kn);
                            assert(mid.table_by_entity@[kn].1 as int == sn);
                        }
                        assert(e3 != entity.0);
                    }
                    let f3 = mid.tbe_index(e3);
                    lemma_find_key(mid.table_by_entity@, e3);
                    assert(0 <= f3 < mid.table_by_entity@.len());
                    assert(mid.table_by_entity@[f3].0 == e3);
                    assert(mid.table_by_entity@[kn].0 == entity.0);
                    assert(f3 != kn);
                    assert(self.table_by_entity@[f3] == mid.table_by_entity@[f3]);
                }
            }
            assert forall|t2: int, j2: int|
                #![trigger self.tables@[t2].signature@[j2]]
                0 <= t2 < self.tables@.len() && 0 <= j2
                    < self.tables@[t2].signature@.len() implies self.col_registered(t2, j2) by {
                if t2 == sn {
                    assert(src_post.signature@ == mid.tables@[sn].signature@);
                    assert(mid.col_registered(t2, j2));
                    assert(src_post.cols@[j2].element_size == mid.tables@[sn].cols@[
                        j2
                    ].element_size);
                } else if t2 == dn {
                    assert(dst_post.signature@ == mid.tables@[dn].signature@);
                    assert(mid.col_registered(t2, j2));
                    assert(dst_post.cols@[j2].element_size == mid.tables@[dn].cols@[
                        j2
                    ].element_size);
                } else {
                    assert(self.tables@[t2] == mid.tables@[t2]);
                    assert(mid.col_registered(t2, j2));
                }
            }
            assert forall|t1: int, t2: int|
                0 <= t1 < t2 < self.tables@.len() implies self.tables@[t1].signature@
                != self.tables@[t2].signature@ by {
                assert(mid.tables@[t1].signature@ != mid.tables@[t2].signature@);
                assert(self.tables@[t1].signature@ == mid.tables@[t1].signature@);
                assert(self.tables@[t2].signature@ == mid.tables@[t2].signature@);
            }
        }
        Ok(())
    }

    /// Destroys `entity`: its row is removed from whichever table holds it,
    /// all its component values are dropped, and its index entry erased.
    #[verifier::rlimit(100)]
    pub fn despawn_entity(&mut self, entity: EntityId) -> (r: Result<(), EcsError>)
        requires
            old(self).wf(),
        ensures
            final(self).wf(),
            final(self).layouts@ == old(self).layouts@,
            match r {
                Ok(()) => {
                    &&& old(self).live(entity.0)
                    &&& !final(self).live(entity.0)
                    &&& final(self).table_by_entity@ == old(self).table_by_entity@.remove(
                        old(self).tbe_index(entity.0),
                    )
                    &&& final(self).tables@.len() == old(self).tables@.len()
                    &&& final(self).tables@[old(self).table_of(entity.0)].entities@ == old(
                        self,
                    ).tables@[old(self).table_of(entity.0)].entities@.update(
                        old(self).tables@[old(self).table_of(entity.0)].row_of(entity.0),
                        old(self).tables@[old(self).table_of(entity.0)].entities@.last(),
                    ).drop_last()
                    &&& forall|t2: int|
                        0 <= t2 < old(self).tables@.len() && t2 != old(self).table_of(entity.0)
                            ==> final(self).tables@[t2] == old(self).tables@[t2]
                    &&& forall|e2: u64|
                        e2 != entity.0 ==> entity_unchanged(*old(self), *final(self), e2)
                },
                Err(e) => {
                    &&& e == EcsError::EntityNotFound
                    &&& !old(self).live(entity.0)
                    &&& *final(self) == *old(self)
                },
            },
    {
        let k = match find_key_index(&self.table_by_entity, entity.0) {
            Some(k) => k,
            None => {
                return Err(EcsError::EntityNotFound);
            },
        };
        let t = self.table_by_entity[k].1;
        proof {
            assert((#[trigger] self.table_by_entity@[k as int]).1 < self.tables@.len());
            assert(self.tables@[t as int].contains_entity(entity.0));
        }
        let ghost pre = *self;
        let ghost tn = t as int;
        let ghost kn = k as int;
        // The removed values are dropped with this binding.
        let _removed = match self.tables[t].remove_row(entity.0) {
            Ok(v) => v,
            Err(_) => unreached(),
        };
        let ghost src_post = self.tables@[tn];
        self.table_by_entity.remove(k);
        proof {
            pre.table_by_entity@.remove_ensures(kn);
            assert(pre.table_by_entity@[kn].0 == entity.0);
            crate::order::lemma_find_key_remove(pre.table_by_entity@, kn, entity.0);
            assert(!self.live(entity.0));
            // Every other entity is untouched.
            assert forall|e2: u64| e2 != entity.0 implies entity_unchanged(pre, *self, e2) by {
                crate::order::lemma_find_key_remove(pre.table_by_entity@, kn, e2);
                lemma_find_key(pre.table_by_entity@, e2);
                if pre.live(e2) {
                    let f = pre.tbe_index(e2);
                    assert(f != kn);
                    let f2: int = if f < kn {
                        f
                    } else {
                        f - 1
                    };
                    assert(self.tbe_index(e2) == f2);
                    assert(self.table_by_entity@[f2] == pre.table_by_entity@[f]);
                    let t2 = pre.table_of(e2);
                    assert(self.table_of(e2) == t2);
                    assert(pre.tables@[t2].contains_entity(e2));
                    if t2 == tn {
                        assert(crate::table::preserves_entity(pre.tables@[tn], src_post, e2));
                        assert(src_post.signature@ == pre.tables@[tn].signature@);
                    } else {
                        assert(self.tables@[t2] == pre.tables@[t2]);
                    }
                    assert(self.sig_of(e2) == pre.sig_of(e2));
                    assert forall|c: u64| pre.sig_of(e2).contains(c) implies self.value_of(e2, c)
                        == pre.value_of(e2, c) by {
                        if t2 == tn {
                            assert(pre.tables@[tn].has_component(c));
                            assert(src_post.value_of(e2, c) == pre.tables@[tn].value_of(e2, c));
                        }
                    }
                }
            }
            // The database invariant is restored.
            assert forall|i: int, j2: int|
                0 <= i < j2 < self.table_by_entity@.len() implies self.table_by_entity@[i].0
                != self.table_by_entity@[j2].0 by {
                let i2: int = if i < kn {
                    i
                } else {
                    i + 1
                };
                let j3: int = if j2 < kn {
                    j2
                } else {
                    j2 + 1
                };
                assert(self.table_by_entity@[i] == pre.table_by_entity@[i2]);
                assert(self.table_by_entity@[j2] == pre.table_by_entity@[j3]);
            }
            assert forall|k2: int|
                0 <= k2 < self.table_by_entity@.len() implies (#[trigger] self.table_by_entity@[
                k2
            ]).1 < self.tables@.len() && self.tables@[self.table_by_entity@[k2].1 as int].contains_entity(
                self.table_by_entity@[k2].0,
            ) by {
                let k3: int = if k2 < kn {
                    k2
                } else {
                    k2 + 1
                };
                assert(self.table_by_entity@[k2] == pre.table_by_entity@[k3]);
                let e2 = pre.table_by_entity@[k3].0;
                let t2 = pre.table_by_entity@[k3].1 as int;
                assert(pre.tables@[t2].contains_entity(e2));
                assert(e2 != entity.0);
                if t2 == tn {
                    assert(crate::table::preserves_entity(pre.tables@[tn], src_post, e2));
                } else {
                    assert(self.tables@[t2] == pre.tables@[t2]);
                }
            }
            assert forall|t2: int, i: int|
                #![trigger self.tables@[t2].entities@[i]]
                0 <= t2 < self.tables@.len() && 0 <= i
                    < self.tables@[t2].entities@.len() implies self.entity_indexed(
                self.tables@[t2].entities@[i],
                t2,
            ) by {
                let e3 = self.tables@[t2].entities@[i];
                if t2 == tn {
                    assert(!src_post.contains_entity(entity.0));
                    if e3 == entity.0 {
                        assert(src_post.entities@.contains(e3));
                    }
                    assert(crate::table::preserves_entity(pre.tables@[tn], src_post, e3));
                    assert(src_post.entities@.contains(e3));
                    assert(pre.tables@[tn].contains_entity(e3));
                    let i0 = choose|i0: int|
                        0 <= i0 < pre.tables@[tn].entities@.len() && pre.tables@[tn].entities@[i0]
                            == e3;
                    assert(pre.entity_indexed(pre.tables@[tn].entities@[i0], tn));
                } else {
                    assert(self.tables@[t2] == pre.tables@[t2]);
                    assert(pre.entity_indexed(e3, t2));
                    if e3 == entity.0 {
                        assert(pre.tbe_index(entity.0) == kn);
                        assert(pre.table_by_entity@[kn].1 as int == tn);
                    }
                    assert(e3 != entity.0);
                }
                let f3 = pre.tbe_index(e3);
                lemma_find_key(pre.table_by_entity@, e3);
                assert(0 <= f3 < pre.table_by_entity@.len());
                assert(pre.table_by_entity@[f3].0 == e3);
                assert(f3 != kn);
                crate::order::lemma_find_key_remove(pre.table_by_entity@, kn, e3);
                let f4: int = if f3 < kn {
                    f3
                } else {
                    f3 - 1
                };
                assert(self.tbe_index(e3) == f4);
                assert(self.table_by_entity@[f4] == pre.table_by_entity@[f3]);
            }
            assert forall|t2: int, j2: int|
                #![trigger self.tables@[t2].signature@[j2]]
                0 <= t2 < self.tables@.len() && 0 <= j2
                    < self.tables@[t2].signature@.len() implies self.col_registered(t2, j2) by {
                if t2 == tn {
                    assert(src_post.signature@ == pre.tables@[tn].signature@);
                    assert(pre.col_registered(t2, j2));
                    assert(src_post.cols@[j2].element_size == pre.tables@[tn].cols@[
                        j2
                    ].element_size);
                } else {
                    assert(self.tables@[t2] == pre.tables@[t2]);
                    assert(pre.col_registered(t2, j2));
                }
            }
            assert forall|t1: int, t2: int|
                0 <= t1 < t2 < self.tables@.len() implies self.tables@[t1].signature@
                != self.tables@[t2].signature@ by {
                assert(pre.tables@[t1].signature@ != pre.tables@[t2].signature@);
                assert(self.tables@[t1].signature@ == pre.tables@[t1].signature@);
                assert(self.tables@[t2].signature@ == pre.tables@[t2].signature@);
            }
        }
        Ok(())
    }

    /// Reads the bytes stored for `entity` under `component`.
    pub fn get_component(&self, entity: EntityId, component: ComponentId) -> (r: Result<
        Vec<u8>,
        EcsError,
    >)
        requires
            self.wf(),
        ensures
            match r {
                Ok(v) => self.has_entity_component(entity.0, component.0) && v@ == self.value_of(
                    entity.0,
                    component.0,
                ),
                Err(EcsError::EntityNotFound) => !self.live(entity.0),
                Err(EcsError::ComponentNotFound) => self.live(entity.0) && !self.sig_of(
                    entity.0,
                ).contains(component.0),
                Err(_) => false,
            },
    {
        let k = match find_key_index(&self.table_by_entity, entity.0) {
            Some(k) => k,
            None => {
                return Err(EcsError::EntityNotFound);
            },
        };
        let t = self.table_by_entity[k].1;
        proof {
            assert((#[trigger] self.table_by_entity@[k as int]).1 < self.tables@.len());
        }
        match self.tables[t].get_component(entity.0, component.0) {
            Ok(v) => Ok(v),
            Err(e) => {
                proof {
                    assert(self.tables@[t as int].contains_entity(entity.0));
                }
                Err(e)
            },
        }
    }

    /// Overwrites the bytes stored for `entity` under `component`; the new
    /// bytes must have the component's registered length.
    pub fn set_component(&mut self, entity: EntityId, component: ComponentId, bytes: &Vec<u8>) -> (r:
        Result<(), EcsError>)
        requires
            old(self).wf(),
        ensures
            final(self).wf(),
            final(self).layouts@ == old(self).layouts@,
            final(self).table_by_entity@ == old(self).table_by_entity@,
            match r {
                Ok(()) => {
                    &&& old(self).has_entity_component(entity.0, component.0)
                    &&& bytes@.len() == old(self).size_of(component.0)
                    &&& final(self).live(entity.0)
                    &&& final(self).sig_of(entity.0) == old(self).sig_of(entity.0)
                    &&& final(self).value_of(entity.0, component.0) == bytes@
                    &&& forall|c2: u64|
                        old(self).sig_of(entity.0).contains(c2) && c2 != component.0 ==> final(self).value_of(entity.0, c2) == old(self).value_of(entity.0, c2)
                    &&& forall|e2: u64|
                        e2 != entity.0 ==> entity_unchanged(*old(self), *final(self), e2)
                },
                Err(EcsError::EntityNotFound) => !old(self).live(entity.0) && *final(self) == *old(
                    self,
                ),
                Err(EcsError::ComponentNotFound) => {
                    &&& old(self).live(entity.0)
                    &&& !old(self).sig_of(entity.0).contains(component.0)
                    &&& *final(self) == *old(self)
                },
                Err(EcsError::TypeLayoutMismatch) => {
                    &&& old(self).has_entity_component(entity.0, component.0)
                    &&& bytes@.len() != old(self).size_of(component.0)
                    &&& *final(self) == *old(self)
                },
                Err(_) => false,
            },
    {
        let k = match find_key_index(&self.table_by_entity, entity.0) {
            Some(k) => k,
            None => {
                return Err(EcsError::EntityNotFound);
            },
        };
        let t = self.table_by_entity[k].1;
        proof {
            assert((#[trigger] self.table_by_entity@[k as int]).1 < self.tables@.len());
            assert(self.tables@[t as int].contains_entity(entity.0));
        }
        let j = match find_index(&self.tables[t].signature, component.0) {
            Some(j) => j,
            None => {
                return Err(EcsError::ComponentNotFound);
            },
        };
        if bytes.len() != self.tables[t].cols[j].element_size {
            proof {
                assert(self.col_registered(t as int, j as int));
            }
            return Err(EcsError::TypeLayoutMismatch);
        }
        proof {
            assert(self.col_registered(t as int, j as int));
        }
        let ghost pre = *self;
        let ghost tn = t as int;
        let res = self.tables[t].set_component(entity.0, component.0, bytes);
        let ghost post_t = self.tables@[tn];
        proof {
            let old_t = pre.tables@[tn];
            if res.is_ok() {
                crate::order::lemma_find_u64(old_t.signature@, component.0);
                assert(pre.col_registered(tn, old_t.col_of(component.0)));
            }
            match res {
                Result::Ok(()) => {
                    assert(pre.table_of(entity.0) == tn);
                    assert(self.table_of(entity.0) == tn);
                    assert forall|c2: u64|
                        pre.sig_of(entity.0).contains(c2) && c2 != component.0 implies self.value_of(
                        entity.0,
                        c2,
                    ) == pre.value_of(entity.0, c2) by {
                        assert(old_t.has_component(c2));
                        assert(post_t.value_of(entity.0, c2) == old_t.value_of(entity.0, c2));
                    }
                    assert forall|e2: u64| e2 != entity.0 implies entity_unchanged(
                        pre,
                        *self,
                        e2,
                    ) by {
                        if pre.live(e2) {
                            lemma_find_key(pre.table_by_entity@, e2);
                            let t2 = pre.table_of(e2);
                            if t2 == tn {
                                assert(crate::table::preserves_entity(old_t, post_t, e2));
                                assert(post_t.signature@ == old_t.signature@);
                            } else {
                                assert(self.tables@[t2] == pre.tables@[t2]);
                            }
                            assert(self.sig_of(e2) == pre.sig_of(e2));
                            assert forall|c: u64|
                                pre.sig_of(e2).contains(c) implies self.value_of(e2, c)
                                == pre.value_of(e2, c) by {
                                if t2 == tn {
                                    assert(old_t.has_component(c));
                                    assert(old_t.contains_entity(e2));
                                    assert(post_t.value_of(e2, c) == old_t.value_of(e2, c));
                                }
                            }
                        }
                    }
                    assert forall|k2: int|
                        0 <= k2 < self.table_by_entity@.len() implies (
                    #[trigger] self.table_by_entity@[k2]).1 < self.tables@.len()
                        && self.tables@[self.table_by_entity@[k2].1 as int].contains_entity(
                        self.table_by_entity@[k2].0,
                    ) by {
                        let e2 = pre.table_by_entity@[k2].0;
                        let t2 = pre.table_by_entity@[k2].1 as int;
                        assert(pre.tables@[t2].contains_entity(e2));
                        if t2 == tn {
                            assert(post_t.entities@ == old_t.entities@);
                        } else {
                            assert(self.tables@[t2] == pre.tables@[t2]);
                        }
                    }
                    assert forall|t2: int, i: int|
                        #![trigger self.tables@[t2].entities@[i]]
                        0 <= t2 < self.tables@.len() && 0 <= i
                            < self.tables@[t2].entities@.len() implies self.entity_indexed(
                        self.tables@[t2].entities@[i],
                        t2,
                    ) by {
                        if t2 == tn {
                            assert(post_t.entities@ == old_t.entities@);
                            assert(self.tables@[t2].entities@[i] == pre.tables@[t2].entities@[i]);
                        } else {
                            assert(self.tables@[t2] == pre.tables@[t2]);
                        }
                        assert(pre.entity_indexed(pre.tables@[t2].entities@[i], t2));
                    }
                    assert forall|t2: int, j2: int|
                        #![trigger self.tables@[t2].signature@[j2]]
                        0 <= t2 < self.tables@.len() && 0 <= j2
                            < self.tables@[t2].signature@.len() implies self.col_registered(
                        t2,
                        j2,
                    ) by {
                        if t2 == tn {
                            assert(post_t.signature@ == old_t.signature@);
                            assert(pre.col_registered(t2, j2));
                            assert(post_t.cols@[j2].element_size == old_t.cols@[j2].element_size);
                        } else {
                            assert(self.tables@[t2] == pre.tables@[t2]);
                            assert(pre.col_registered(t2, j2));
                        }
                    }
                    assert forall|t1: int, t2: int|
                        0 <= t1 < t2 < self.tables@.len() implies self.tables@[t1].signature@
                        != self.tables@[t2].signature@ by {
                        assert(pre.tables@[t1].signature@ != pre.tables@[t2].signature@);
                        if t1 == tn {
                            assert(self.tables@[t1].signature@ == pre.tables@[t1].signature@);
                        }
                        if t2 == tn {
                            assert(self.tables@[t2].signature@ == pre.tables@[t2].signature@);
                        }
                    }
                },
                Result::Err(e) => {
                    assert(false);
                },
            }
        }
        match res {
            Ok(()) => Ok(()),
            Err(_) => unreached(),
        }
    }

    /// The current signature of `entity`: the strictly sorted component set
    /// of the table holding it.
    pub fn entity_signature(&self, entity: EntityId) -> (r: Result<Vec<u64>, EcsError>)
        requires
            self.wf(),
        ensures
            match r {
                Ok(v) => self.live(entity.0) && v@ == self.sig_of(entity.0),
                Err(e) => e == EcsError::EntityNotFound && !self.live(entity.0),
            },
    {
        let k = match find_key_index(&self.table_by_entity, entity.0) {
            Some(k) => k,
            None => {
                return Err(EcsError::EntityNotFound);
            },
        };
        let t = self.table_by_entity[k].1;
        proof {
            assert((#[trigger] self.table_by_entity@[k as int]).1 < self.tables@.len());
        }
        Ok(copy_ids(&self.tables[t].signature))
    }
}

/// The entity ids of the rows that a query over `req` yields: for every table
/// whose signature includes `req`, its entities in row order, tables in id
/// order.
pub open spec fn query_rows(tables: Seq<Table>, req: Set<u64>) -> Seq<u64>
    decreases tables.len(),
{
    if tables.len() == 0 {
        Seq::empty()
    } else {
        (if req <= tables[0].signature@.to_set() {
            tables[0].entities@
        } else {
            Seq::<u64>::empty()
        }) + query_rows(tables.drop_first(), req)
    }
}

/// The id sequence underlying a sequence of entity ids.
pub open spec fn eids(s: Seq<EntityId>) -> Seq<u64> {
    s.map_values(|e: EntityId| e.0)
}

proof fn lemma_query_rows_snoc(tables: Seq<Table>, req: Set<u64>)
    requires
        tables.len() > 0,
    ensures
        query_rows(tables, req) == query_rows(tables.drop_last(), req) + (if req
            <= tables.last().signature@.to_set() {
            tables.last().entities@
        } else {
            Seq::<u64>::empty()
        }),
    decreases tables.len(),
{
    let head: Seq<u64> = if req <= tables[0].signature@.to_set() {
        tables[0].entities@
    } else {
        Seq::<u64>::empty()
    };
    let tailpart: Seq<u64> = if req <= tables.last().signature@.to_set() {
        tables.last().entities@
    } else {
        Seq::<u64>::empty()
    };
    if tables.len() == 1 {
        assert(tables.drop_last() =~= Seq::<Table>::empty());
        assert(tables.drop_first() =~= Seq::<Table>::empty());
        assert(query_rows(tables.drop_first(), req) == Seq::<u64>::empty());
        assert(query_rows(tables, req) == head + Seq::<u64>::empty());
        assert(head + Seq::<u64>::empty() =~= head);
        assert(tables.last() == tables[0]);
        assert(query_rows(tables.drop_last(), req) == Seq::<u64>::empty());
        assert(Seq::<u64>::empty() + tailpart =~= tailpart);
    } else {
        let t = tables.drop_first();
        lemma_query_rows_snoc(t, req);
        assert(t.last() == tables.last());
        assert(tables.drop_last().drop_first() =~= t.drop_last());
        assert(tables.drop_last()[0] == tables[0]);
        assert(query_rows(tables.drop_last(), req) == head + query_rows(t.drop_last(), req));
        assert(query_rows(tables, req) == head + (query_rows(t.drop_last(), req) + tailpart));
        assert(head + (query_rows(t.drop_last(), req) + tailpart) =~= (head + query_rows(
            t.drop_last(),
            req,
        )) + tailpart);
    }
}

impl Database {
    /// All entities whose signature includes every required component, in row
    /// order within each table; the order across tables follows table ids.
    /// The result is a fresh vector: a restartable walk over current rows.
    pub fn query(&self, required: &Vec<ComponentId>) -> (r: Vec<EntityId>)
        requires
            self.wf(),
        ensures
            eids(r@) == query_rows(self.tables@, ids_set(required@)),
    {
        let m = required.len();
        let mut req_ids: Vec<u64> = Vec::new();
        let mut k: usize = 0;
        while k < m
            invariant
                k <= m,
                m == required@.len(),
                req_ids@.len() == k,
                forall|k2: int| 0 <= k2 < k ==> #[trigger] req_ids@[k2] == required@[k2].0,
            decreases m - k,
        {
            req_ids.push(required[k].0);
            k = k + 1;
        }
        proof {
            assert(req_ids@ =~= id_seq(required@));
        }
        let ghost req = ids_set(required@);
        let n = self.tables.len();
        let mut out: Vec<EntityId> = Vec::new();
        let mut t: usize = 0;
        while t < n
            invariant
                t <= n,
                n == self.tables@.len(),
                self.wf(),
                req_ids@.to_set() == req,
                eids(out@) == query_rows(self.tables@.subrange(0, t as int), req),
            decreases n - t,
        {
            let ghost prefix = self.tables@.subrange(0, t as int);
            let ghost prefix2 = self.tables@.subrange(0, t + 1);
            if crate::order::ids_subset(&req_ids, &self.tables[t].signature) {
                let rows = self.tables[t].entities.len();
                let mut i: usize = 0;
                while i < rows
                    invariant
                        i <= rows,
                        t < n,
                        n == self.tables@.len(),
                        rows == self.tables@[t as int].entities@.len(),
                        eids(out@) == query_rows(self.tables@.subrange(0, t as int), req)
                            + self.tables@[t as int].entities@.subrange(0, i as int),
                    decreases rows - i,
                {
                    let ghost pre_out = out@;
                    out.push(EntityId(self.tables[t].entities[i]));
                    proof {
                        assert(eids(out@) =~= eids(pre_out).push(
                            self.tables@[t as int].entities@[i as int],
                        ));
                        assert(self.tables@[t as int].entities@.subrange(0, i + 1)
                            =~= self.tables@[t as int].entities@.subrange(0, i as int).push(
                            self.tables@[t as int].entities@[i as int],
                        ));
                        assert(eids(out@) =~= query_rows(self.tables@.subrange(0, t as int), req)
                            + self.tables@[t as int].entities@.subrange(0, i + 1));
                    }
                    i = i + 1;
                }
                proof {
                    assert(self.tables@[t as int].entities@.subrange(
                        0,
                        self.tables@[t as int].entities@.len() as int,
                    ) =~= self.tables@[t as int].entities@);
                    lemma_query_rows_snoc(prefix2, req);
                    assert(prefix2.drop_last() =~= prefix);
                    assert(prefix2.last() == self.tables@[t as int]);
                }
            } else {
                proof {
                    lemma_query_rows_snoc(prefix2, req);
                    assert(prefix2.drop_last() =~= prefix);
                    assert(prefix2.last() == self.tables@[t as int]);
                    assert(eids(out@) =~= query_rows(prefix2, req));
                }
            }
            t = t + 1;
        }
        proof {
            assert(self.tables@.subrange(0, self.tables@.len() as int) =~= self.tables@);
        }
        out
    }
}

/// Adding a component to a signature and then removing it restores the
/// original signature exactly: migration is the identity on the observable
/// component set, whatever tables it passed through.
pub proof fn lemma_add_remove_signature_identity(s: Seq<u64>, c: u64, s2: Seq<u64>, s3: Seq<u64>)
    requires
        sorted_strict(s),
        !s.contains(c),
        sorted_strict(s2),
        s2.to_set() == s.to_set().insert(c),
        sorted_strict(s3),
        s3.to_set() == s2.to_set().remove(c),
    ensures
        s3 == s,
{
    assert forall|x: u64| s.to_set().contains(x) implies s3.to_set().contains(x) by {
        assert(s.contains(x));
        assert(x != c);
    }
    assert(s3.to_set() =~= s.to_set());
    lemma_sorted_set_unique(s3, s);
}

/// No dual residency: in a well-formed database a live entity occupies a row
/// in exactly one table, the one its index entry names.
pub proof fn lemma_no_dual_residency(db: Database, e: u64, t1: int, t2: int)
    requires
        db.wf(),
        0 <= t1 < db.tables@.len(),
        0 <= t2 < db.tables@.len(),
        db.tables@[t1].contains_entity(e),
        db.tables@[t2].contains_entity(e),
    ensures
        t1 == t2,
        db.live(e),
        db.table_of(e) == t1,
{
    let i1 = choose|i1: int|
        0 <= i1 < db.tables@[t1].entities@.len() && db.tables@[t1].entities@[i1] == e;
    let i2 = choose|i2: int|
        0 <= i2 < db.tables@[t2].entities@.len() && db.tables@[t2].entities@[i2] == e;
    assert(db.entity_indexed(db.tables@[t1].entities@[i1], t1));
    assert(db.entity_indexed(db.tables@[t2].entities@[i2], t2));
}

/// Signature canonicalization: two tables of a well-formed database carrying
/// the same component set are the same table, so looking a set up under any
/// construction order yields the same table id.
pub proof fn lemma_table_signature_unique(db: Database, t1: int, t2: int)
    requires
        db.wf(),
        0 <= t1 < db.tables@.len(),
        0 <= t2 < db.tables@.len(),
        db.tables@[t1].signature@.to_set() == db.tables@[t2].signature@.to_set(),
    ensures
        t1 == t2,
{
    if t1 != t2 {
        assert(db.tables@[t1].wf());
        assert(db.tables@[t2].wf());
        lemma_sorted_set_unique(db.tables@[t1].signature@, db.tables@[t2].signature@);
    }
}

/// When the entity index is unchanged and every table it points at is
/// unchanged, every entity reads exactly as before.
pub proof fn lemma_entities_untouched(pre: Database, post: Database)
    requires
        post.table_by_entity@ == pre.table_by_entity@,
        forall|k: int|
            0 <= k < pre.table_by_entity@.len() ==> (#[trigger] pre.table_by_entity@[k]).1
                < pre.tables@.len(),
        pre.tables@.len() <= post.tables@.len(),
        forall|t2: int| 0 <= t2 < pre.tables@.len() ==> post.tables@[t2] == pre.tables@[t2],
    ensures
        forall|e: u64| entity_unchanged(pre, post, e),
{
    assert forall|e: u64| entity_unchanged(pre, post, e) by {
        if pre.live(e) {
            lemma_find_key(pre.table_by_entity@, e);
            assert(post.tables@[pre.table_of(e)] == pre.tables@[pre.table_of(e)]);
        }
    }
}

} // verus!
