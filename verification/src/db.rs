//! The vector store: an ordered list of unique string identifiers beside one
//! flat buffer of fixed-point coordinates.
//!
//! A store holds `count()` records. The record at position `i` owns the
//! buffer range `i * dimension .. (i + 1) * dimension`, and is always kept
//! L2-normalized: raw inputs are never stored. The dimension is locked in by
//! the first successful insert and never reset, not even when every record
//! is deleted.

use crate::errors::VecError;
use crate::topk::{entry_better, insert_pos, selected, topk, topk_insert, topk_inv, topk_prefix};
use crate::topk::{lemma_insert_pos_props, lemma_topk_prefix_inv};
use crate::vector::{dot, ints, l2_norm, norm_spec, sum_sq, MAX_DIM};
use crate::vector::dot_product;
use vstd::arithmetic::mul::{lemma_mul_basics, lemma_mul_inequality, lemma_mul_is_distributive_add_other_way};
use vstd::prelude::*;
use vstd::string::StringExecFns;

verus! {

/// The mathematical model of a store: the identifiers in storage order, the
/// flat coordinate buffer, and the locked-in dimension.
pub struct StoreModel {
    /// The identifiers, in insertion-then-deletion order.
    pub ids: Seq<Seq<char>>,
    /// All coordinates, record after record.
    pub data: Seq<int>,
    /// The fixed record width, once the first insert has established it.
    pub dim: Option<int>,
}

/// The position of the first occurrence of `id`, or `-1` when absent.
pub open spec fn find_id(ids: Seq<Seq<char>>, id: Seq<char>) -> int
    decreases ids.len(),
{
    if ids.len() == 0 {
        -1
    } else if ids[0] == id {
        0
    } else {
        let r = find_id(ids.drop_first(), id);
        if r < 0 {
            -1
        } else {
            r + 1
        }
    }
}

impl StoreModel {
    /// The number of records.
    pub open spec fn count(self) -> int {
        self.ids.len() as int
    }

    /// Everything that always holds of a store: the buffer length matches
    /// `count * dimension`, identifiers are pairwise distinct, and a store
    /// without a dimension has never held a record.
    pub open spec fn wf(self) -> bool {
        &&& match self.dim {
            Option::Some(d) => 1 <= d <= MAX_DIM && self.data.len() == self.ids.len() * d,
            Option::None => self.ids.len() == 0 && self.data.len() == 0,
        }
        &&& forall|i: int, j: int|
            0 <= i < j < self.ids.len() ==> self.ids[i] != self.ids[j]
    }

    /// The coordinates of the record at position `i`.
    pub open spec fn record(self, i: int) -> Seq<int>
        recommends
            self.dim is Some,
            0 <= i < self.count(),
    {
        let d = self.dim->Some_0;
        self.data.subrange(i * d, (i + 1) * d)
    }

    /// The similarity of every record against a normalized query, in
    /// storage order.
    pub open spec fn scores(self, q: Seq<int>) -> Seq<int> {
        Seq::new(self.count() as nat, |i: int| dot(self.record(i), q))
    }
}

/// Why an insert of `v` is rejected, or `None` when it is accepted: a vector
/// of the wrong width is turned away first, then one that cannot be
/// normalized; a rejected insert leaves the store untouched.
pub open spec fn insert_check(m: StoreModel, v: Seq<int>) -> Option<VecError> {
    if m.dim is Some && v.len() != m.dim->Some_0 {
        Option::Some(VecError::DimensionMismatch)
    } else if v.len() == 0 {
        Option::Some(VecError::EmptyVector)
    } else if sum_sq(v) == 0 {
        Option::Some(VecError::ZeroVector)
    } else {
        Option::None
    }
}

/// The store after an accepted insert of `v` under `id`: an existing record
/// is overwritten in place, a new one is appended; either way the stored
/// coordinates are the normalized form of `v`.
pub open spec fn spec_insert(m: StoreModel, id: Seq<char>, v: Seq<int>) -> StoreModel
    recommends
        insert_check(m, v) is None,
{
    let nv = norm_spec(v);
    let d = v.len() as int;
    let i = find_id(m.ids, id);
    if i >= 0 {
        StoreModel {
            ids: m.ids,
            data: m.data.subrange(0, i * d).add(nv).add(
                m.data.subrange((i + 1) * d, m.data.len() as int),
            ),
            dim: m.dim,
        }
    } else {
        StoreModel { ids: m.ids.push(id), data: m.data.add(nv), dim: Option::Some(d) }
    }
}

/// The store after deleting the record of `id`: the identifier leaves the
/// list and its buffer range closes up, every later record shifting down by
/// one record width. The dimension stays locked in.
pub open spec fn spec_delete(m: StoreModel, id: Seq<char>) -> StoreModel
    recommends
        m.dim is Some,
        find_id(m.ids, id) >= 0,
{
    let d = m.dim->Some_0;
    let i = find_id(m.ids, id);
    StoreModel {
        ids: m.ids.remove(i),
        data: m.data.subrange(0, i * d).add(
            m.data.subrange((i + 1) * d, m.data.len() as int),
        ),
        dim: m.dim,
    }
}

/// Why a search for `q` is rejected, or `None` when it is answered: a store
/// that never saw an insert cannot be searched, then the query must match
/// the dimension and be normalizable.
pub open spec fn search_check(m: StoreModel, q: Seq<int>) -> Option<VecError> {
    if m.dim is None {
        Option::Some(VecError::EmptyDatabase)
    } else if q.len() != m.dim->Some_0 {
        Option::Some(VecError::DimensionMismatch)
    } else if sum_sq(q) == 0 {
        Option::Some(VecError::ZeroVector)
    } else {
        Option::None
    }
}

/// When `find_id` reports a hit it is the first one; when it reports a miss
/// there is none.
pub proof fn lemma_find_id(ids: Seq<Seq<char>>, id: Seq<char>)
    ensures
        find_id(ids, id) == -1 || 0 <= find_id(ids, id) < ids.len(),
        find_id(ids, id) >= 0 ==> ids[find_id(ids, id)] == id,
        find_id(ids, id) == -1 ==> forall|p: int| 0 <= p < ids.len() ==> ids[p] != id,
    decreases ids.len(),
{
    if ids.len() > 0 && ids[0] != id {
        lemma_find_id(ids.drop_first(), id);
        let r = find_id(ids.drop_first(), id);
        if r >= 0 {
            assert(ids.drop_first()[r] == ids[r + 1]);
        } else {
            assert forall|p: int| 0 <= p < ids.len() implies ids[p] != id by {
                if p > 0 {
                    assert(ids.drop_first()[p - 1] == ids[p]);
                }
            }
        }
    }
}

/// The first match determines `find_id`.
pub proof fn lemma_find_id_unique(ids: Seq<Seq<char>>, id: Seq<char>, i: int)
    requires
        0 <= i < ids.len(),
        ids[i] == id,
        forall|p: int| 0 <= p < i ==> ids[p] != id,
    ensures
        find_id(ids, id) == i,
    decreases ids.len(),
{
    if i > 0 {
        assert(ids[0] != id);
        assert(ids.drop_first()[i - 1] == ids[i]);
        assert forall|p: int| 0 <= p < i - 1 implies ids.drop_first()[p] != id by {
            assert(ids.drop_first()[p] == ids[p + 1]);
        }
        lemma_find_id_unique(ids.drop_first(), id, i - 1);
    }
}

/// What an insert reports: whether a fresh record was created or an existing
/// one overwritten; an overwrite carries the identifier back to the caller.
#[derive(Debug)]
pub enum InsertOutcome {
    /// A new record was appended.
    Inserted,
    /// The record under this identifier was overwritten.
    Updated(String),
}

impl InsertOutcome {
    /// A human-readable description of the outcome.
    pub fn message(self) -> (r: String)
        ensures
            match self {
                InsertOutcome::Inserted => r@ == "Inserted to database with id"@,
                InsertOutcome::Updated(id) => r@ == "Updated vector with id: "@ + id@,
            },
    {
        match self {
            InsertOutcome::Inserted => String::from_str("Inserted to database with id"),
            InsertOutcome::Updated(id) => String::from_str("Updated vector with id: ").concat(
                id.as_str(),
            ),
        }
    }
}

/// The store: identifiers in storage order beside the flat coordinate
/// buffer.
pub struct VecDB {
    ids: Vec<String>,
    vectors: Vec<i32>,
    dimension: Option<usize>,
}

impl View for VecDB {
    type V = StoreModel;

    closed spec fn view(&self) -> StoreModel {
        StoreModel {
            ids: self.ids@.map_values(|s: String| s@),
            data: ints(self.vectors@),
            dim: match self.dimension {
                Option::Some(d) => Option::Some(d as int),
                Option::None => Option::None,
            },
        }
    }
}

impl VecDB {
    /// Creates a new, empty store. The dimension is locked in by the first
    /// successful insert.
    pub fn new() -> (r: VecDB)
        ensures
            r@.wf(),
            r@.count() == 0,
            r@.dim is None,
            r@ == (StoreModel { ids: Seq::<Seq<char>>::empty(), data: Seq::<int>::empty(), dim: Option::<int>::None }),
    {
        let r = VecDB { ids: Vec::new(), vectors: Vec::new(), dimension: None };
        proof {
            assert(r@.ids =~= Seq::<Seq<char>>::empty());
            assert(r@.data =~= Seq::<int>::empty());
        }
        r
    }

    /// The number of records in the store.
    pub fn count(&self) -> (r: usize)
        ensures
            r as int == self@.count(),
    {
        self.ids.len()
    }

    /// The locked-in dimension, or `None` while the store has never been
    /// written to.
    pub fn dimension(&self) -> (r: Option<usize>)
        ensures
            match r {
                Option::Some(d) => self@.dim == Option::Some(d as int),
                Option::None => self@.dim is None,
            },
    {
        self.dimension
    }

    /// The total number of stored coordinates: `count()` times the
    /// dimension.
    pub fn data_len(&self) -> (r: usize)
        ensures
            r as int == self@.data.len(),
    {
        self.vectors.len()
    }

    /// The position of `id` among the stored identifiers, scanning from the
    /// front.
    fn position_of(ids: &Vec<String>, id: &str) -> (r: Option<usize>)
        ensures
            match r {
                Option::Some(i) => 0 <= (i as int) < ids@.len() && find_id(
                    ids@.map_values(|s: String| s@),
                    id@,
                ) == i as int,
                Option::None => find_id(ids@.map_values(|s: String| s@), id@) == -1,
            },
    {
        let ghost names = ids@.map_values(|s: String| s@);
        let owned = id.to_owned();
        let n = ids.len();
        let mut i: usize = 0;
        while i < n
            invariant
                0 <= i <= n,
                n == ids@.len(),
                names == ids@.map_values(|s: String| s@),
                owned@ == id@,
                forall|p: int| 0 <= p < i as int ==> names[p] != id@,
            decreases n - i,
        {
            if ids[i] == owned {
                proof {
                    lemma_find_id_unique(names, id@, i as int);
                }
                return Some(i);
            }
            i = i + 1;
        }
        proof {
            lemma_find_id(names, id@);
            if find_id(names, id@) >= 0 {
                assert(names[find_id(names, id@)] == id@);
            }
        }
        None
    }

    /// A copy of the coordinates of the record at `index`.
    pub fn get_vector(&self, index: usize) -> (r: Vec<i32>)
        requires
            self@.wf(),
            self@.dim is Some,
            (index as int) < self@.count(),
        ensures
            ints(r@) == self@.record(index as int),
            r@.len() as int == self@.dim->Some_0,
    {
        let d = match self.dimension {
            Some(d) => d,
            None => {
                proof {
                    assert(false);
                }
                0
            },
        };
        let total = self.vectors.len();
        proof {
            lemma_mul_basics(d as int);
            lemma_mul_inequality(index as int + 1, self@.count(), d as int);
            lemma_mul_is_distributive_add_other_way(d as int, index as int, 1);
            assert((index as int) * (d as int) + (d as int) <= total as int);
        }
        let start = index * d;
        let mut out: Vec<i32> = Vec::new();
        let mut j: usize = 0;
        while j < d
            invariant
                0 <= j <= d,
                self@.wf(),
                self@.dim == Option::Some(d as int),
                (index as int) < self@.count(),
                start as int == (index as int) * (d as int),
                start as int + d as int <= total as int,
                total as int == self.vectors@.len(),
                self@.data.len() == self.vectors@.len(),
                out@.len() == j as int,
                forall|p: int|
                    0 <= p < j as int ==> out@[p] as int == self@.data[start as int + p],
            decreases d - j,
        {
            out.push(self.vectors[start + j]);
            j = j + 1;
        }
        proof {
            assert(ints(out@) =~= self@.record(index as int));
        }
        out
    }

    /// Inserts or updates a record.
    ///
    /// The vector is L2-normalized before storage; a raw input is never
    /// kept. The first successful insert locks in the dimension; afterwards
    /// a vector of any other length is turned away with `DimensionMismatch`.
    /// Inserting under an existing identifier overwrites that record in
    /// place and reports the update; otherwise the record is appended. A
    /// rejected insert leaves the store exactly as it was.
    pub fn insert(&mut self, id: String, vector: Vec<i32>) -> (r: Result<InsertOutcome, VecError>)
        requires
            old(self)@.wf(),
            vector@.len() <= MAX_DIM,
        ensures
            final(self)@.wf(),
            match insert_check(old(self)@, ints(vector@)) {
                Option::Some(e) => r == Err::<InsertOutcome, VecError>(e) && final(self)@ == old(
                    self,
                )@,
                Option::None => {
                    &&& final(self)@ == spec_insert(old(self)@, id@, ints(vector@))
                    &&& match r {
                        Result::Ok(InsertOutcome::Updated(rid)) => find_id(old(self)@.ids, id@)
                            >= 0 && rid@ == id@,
                        Result::Ok(InsertOutcome::Inserted) => find_id(old(self)@.ids, id@) == -1,
                        Result::Err(_) => false,
                    }
                },
            },
    {
        let ghost m0 = old(self)@;
        let d = vector.len();
        if let Some(d0) = self.dimension {
            if d != d0 {
                return Err(VecError::DimensionMismatch);
            }
        }
        let norm = match l2_norm(&vector) {
            Ok(u) => u,
            Err(e) => {
                return Err(e);
            },
        };
        let ghost v = ints(vector@);
        let ghost nv = ints(norm@);
        match Self::position_of(&self.ids, id.as_str()) {
            Some(i) => {
                proof {
                    lemma_find_id(m0.ids, id@);
                    // The store has records, so its dimension is locked in
                    // and equals the vector's length.
                    assert(m0.dim == Option::Some(d as int));
                    lemma_mul_basics(d as int);
                    lemma_mul_inequality(i as int + 1, m0.count(), d as int);
                    lemma_mul_is_distributive_add_other_way(d as int, i as int, 1);
                }
                let total = self.vectors.len();
                let start = i * d;
                let mut j: usize = 0;
                while j < d
                    invariant
                        0 <= j <= d,
                        norm@.len() == d as int,
                        start as int + d as int <= total as int,
                        total as int == self.vectors@.len(),
                        self.ids == old(self).ids,
                        self.dimension == old(self).dimension,
                        self.vectors@.len() == old(self).vectors@.len(),
                        forall|p: int|
                            0 <= p < j as int ==> self.vectors@[start as int + p] == norm@[p],
                        forall|p: int|
                            0 <= p < self.vectors@.len() && !(start as int <= p < start as int
                                + j as int) ==> self.vectors@[p] == old(self).vectors@[p],
                    decreases d - j,
                {
                    self.vectors[start + j] = norm[j];
                    j = j + 1;
                }
                proof {
                    let mf = self@;
                    let ms = spec_insert(m0, id@, v);
                    assert(nv == norm_spec(v));
                    assert(mf.data =~= ms.data);
                    assert(mf == ms);
                }
                Ok(InsertOutcome::Updated(id))
            },
            None => {
                let ghost idv = id@;
                proof {
                    lemma_find_id(m0.ids, id@);
                    lemma_mul_basics(d as int);
                    if m0.dim is Some {
                        lemma_mul_is_distributive_add_other_way(d as int, m0.count(), 1);
                    }
                }
                self.ids.push(id);
                proof {
                    assert(self.ids@.map_values(|s: String| s@) =~= m0.ids.push(idv));
                }
                let mut j: usize = 0;
                while j < d
                    invariant
                        0 <= j <= d,
                        norm@.len() == d as int,
                        self.ids@.map_values(|s: String| s@) == m0.ids.push(idv),
                        self.dimension == old(self).dimension,
                        self.vectors@ == old(self).vectors@ + norm@.take(j as int),
                    decreases d - j,
                {
                    self.vectors.push(norm[j]);
                    proof {
                        assert(self.vectors@ =~= old(self).vectors@ + norm@.take(j as int + 1));
                    }
                    j = j + 1;
                }
                self.dimension = Some(d);
                proof {
                    let mf = self@;
                    let ms = spec_insert(m0, id@, v);
                    assert(mf.ids =~= ms.ids);
                    assert(mf.data =~= ms.data);
                    assert(mf == ms);
                }
                Ok(InsertOutcome::Inserted)
            },
        }
    }

    /// Returns a copy of the stored, normalized vector under `id`, or
    /// nothing when the identifier is absent or the store has never been
    /// written to.
    pub fn get(&self, id: &str) -> (r: Option<Vec<i32>>)
        requires
            self@.wf(),
        ensures
            match r {
                Option::Some(v) => self@.dim is Some && find_id(self@.ids, id@) >= 0 && ints(v@)
                    == self@.record(find_id(self@.ids, id@)),
                Option::None => self@.dim is None || find_id(self@.ids, id@) == -1,
            },
    {
        if self.dimension.is_none() {
            return None;
        }
        proof {
            lemma_find_id(self@.ids, id@);
        }
        match Self::position_of(&self.ids, id) {
            Some(i) => Some(self.get_vector(i)),
            None => None,
        }
    }

    /// Deletes the record under `id`.
    ///
    /// Fails with `EmptyStore` when the store has never been written to and
    /// with `NotFound` when the identifier is absent; either failure leaves
    /// the store unchanged. On success the identifier leaves the list and
    /// every later record shifts down by one record width, keeping storage
    /// order; the dimension stays locked in.
    pub fn delete(&mut self, id: &str) -> (r: Result<String, VecError>)
        requires
            old(self)@.wf(),
        ensures
            final(self)@.wf(),
            if old(self)@.dim is None {
                r == Err::<String, VecError>(VecError::EmptyStore) && final(self)@ == old(self)@
            } else if find_id(old(self)@.ids, id@) == -1 {
                r == Err::<String, VecError>(VecError::NotFound) && final(self)@ == old(self)@
            } else {
                match r {
                    Result::Ok(msg) => msg@ == "Success Delete"@ && final(self)@ == spec_delete(
                        old(self)@,
                        id@,
                    ),
                    Result::Err(_) => false,
                }
            },
    {
        let ghost m0 = old(self)@;
        let d = match self.dimension {
            Some(d) => d,
            None => {
                return Err(VecError::EmptyStore);
            },
        };
        proof {
            lemma_find_id(m0.ids, id@);
        }
        let i = match Self::position_of(&self.ids, id) {
            Some(i) => i,
            None => {
                return Err(VecError::NotFound);
            },
        };
        proof {
            lemma_mul_basics(d as int);
            lemma_mul_inequality(i as int + 1, m0.count(), d as int);
            lemma_mul_is_distributive_add_other_way(d as int, i as int, 1);
        }
        let total = self.vectors.len();
        let start = i * d;
        let mut j: usize = 0;
        while j < d
            invariant
                0 <= j <= d,
                start as int + d as int <= total as int,
                total as int == old(self).vectors@.len(),
                self.ids == old(self).ids,
                self.dimension == old(self).dimension,
                self.vectors@ =~= old(self).vectors@.subrange(0, start as int)
                    + old(self).vectors@.subrange(
                    start as int + j as int,
                    old(self).vectors@.len() as int,
                ),
            decreases d - j,
        {
            self.vectors.remove(start);
            proof {
                assert(self.vectors@ =~= old(self).vectors@.subrange(0, start as int)
                    + old(self).vectors@.subrange(
                    start as int + j as int + 1,
                    old(self).vectors@.len() as int,
                ));
            }
            j = j + 1;
        }
        self.ids.remove(i);
        proof {
            let mf = self@;
            let ms = spec_delete(m0, id@);
            assert(mf.ids =~= ms.ids) by {
                assert(mf.ids =~= m0.ids.remove(i as int));
            }
            assert(mf.data =~= ms.data);
            assert(mf == ms);
            // The shrunken store is still well-formed: one record left, and
            // the survivors keep their distinct identifiers.
            lemma_mul_is_distributive_add_other_way(d as int, m0.count() - 1, 1);
            assert(mf.data.len() == (m0.count() - 1) * (d as int));
            m0.ids.remove_ensures(i as int);
            assert forall|p: int, q: int|
                0 <= p < q < mf.ids.len() implies mf.ids[p] != mf.ids[q] by {
                let pp = if p < i as int {
                    p
                } else {
                    p + 1
                };
                let qq = if q < i as int {
                    q
                } else {
                    q + 1
                };
                assert(mf.ids[p] == m0.ids[pp]);
                assert(mf.ids[q] == m0.ids[qq]);
            }
        }
        Ok(String::from_str("Success Delete"))
    }

    /// All records as (identifier, normalized vector) pairs, in storage
    /// order.
    pub fn list(&self) -> (r: Vec<(String, Vec<i32>)>)
        requires
            self@.wf(),
        ensures
            r@.len() == self@.count(),
            forall|p: int|
                0 <= p < r@.len() ==> (#[trigger] r@[p]).0@ == self@.ids[p] && ints(r@[p].1@)
                    == self@.record(p),
    {
        let n = self.ids.len();
        let mut out: Vec<(String, Vec<i32>)> = Vec::new();
        let mut i: usize = 0;
        while i < n
            invariant
                0 <= i <= n,
                n == self@.count(),
                self@.wf(),
                n > 0 ==> self@.dim is Some,
                out@.len() == i as int,
                forall|p: int|
                    0 <= p < i as int ==> (#[trigger] out@[p]).0@ == self@.ids[p] && ints(
                        out@[p].1@,
                    ) == self@.record(p),
            decreases n - i,
        {
            let name = self.ids[i].clone();
            let vec = self.get_vector(i);
            proof {
                assert(name@ == self@.ids[i as int]);
            }
            out.push((name, vec));
            i = i + 1;
        }
        out
    }

    /// The stored identifiers, for the persistence codec.
    pub(crate) fn ids_vec(&self) -> (r: &Vec<String>)
        ensures
            r@.map_values(|s: String| s@) == self@.ids,
    {
        &self.ids
    }

    /// The flat coordinate buffer, for the persistence codec.
    pub(crate) fn data_vec(&self) -> (r: &Vec<i32>)
        ensures
            ints(r@) == self@.data,
    {
        &self.vectors
    }

    /// Assembles a store from its three parts, for the persistence codec.
    pub(crate) fn from_parts(ids: Vec<String>, vectors: Vec<i32>, dimension: Option<usize>) -> (r:
        VecDB)
        ensures
            r@ == (StoreModel {
                ids: ids@.map_values(|s: String| s@),
                data: ints(vectors@),
                dim: match dimension {
                    Option::Some(d) => Option::Some(d as int),
                    Option::None => Option::None,
                },
            }),
    {
        VecDB { ids, vectors, dimension }
    }

    /// Searches for the `top_k` records most similar to the query.
    ///
    /// The query is normalized and compared against every record by dot
    /// product, which over unit vectors is cosine similarity: a score of
    /// `SCALE * SCALE` squared micro-units means a cosine of exactly one.
    /// The result holds `min(top_k, count())` entries sorted by descending
    /// score; equal scores come in storage order, earlier records first.
    /// The entries are exactly the best-ranked records: see [`topk`].
    ///
    /// Fails with `EmptyDatabase` when the store has never been written to,
    /// with `DimensionMismatch` when the query's length is not the locked-in
    /// dimension, and with `ZeroVector` when the query cannot be normalized.
    pub fn search(&self, query: Vec<i32>, top_k: usize) -> (r: Result<
        Vec<(String, Vec<i32>, i128)>,
        VecError,
    >)
        requires
            self@.wf(),
        ensures
            match search_check(self@, ints(query@)) {
                Option::Some(e) => r == Err::<Vec<(String, Vec<i32>, i128)>, VecError>(e),
                Option::None => match r {
                    Result::Ok(res) => {
                        let sel = topk(self@.scores(norm_spec(ints(query@))), top_k as int);
                        &&& topk_inv(
                            sel,
                            self@.scores(norm_spec(ints(query@))),
                            self@.count(),
                            top_k as int,
                        )
                        &&& res@.len() == sel.len()
                        &&& res@.len() == if top_k as int <= self@.count() {
                            top_k as int
                        } else {
                            self@.count()
                        }
                        &&& forall|p: int|
                            0 <= p < res@.len() ==> (#[trigger] res@[p]).0@ == self@.ids[sel[p].1]
                                && ints(res@[p].1@) == self@.record(sel[p].1) && res@[p].2 as int
                                == sel[p].0
                        &&& forall|p: int, q: int|
                            0 <= p < q < res@.len() ==> (#[trigger] res@[p]).2
                                >= (#[trigger] res@[q]).2
                    },
                    Result::Err(_) => false,
                },
            },
    {
        let d = match self.dimension {
            Some(d) => d,
            None => {
                return Err(VecError::EmptyDatabase);
            },
        };
        if query.len() != d {
            return Err(VecError::DimensionMismatch);
        }
        let norm_q = match l2_norm(&query) {
            Ok(u) => u,
            Err(e) => {
                return Err(e);
            },
        };
        let ghost q = norm_spec(ints(query@));
        let ghost scores = self@.scores(q);
        let ghost k = top_k as int;
        let n = self.ids.len();
        let mut cand: Vec<(i128, usize)> = Vec::new();
        let mut i: usize = 0;
        proof {
            assert(entries(cand@) =~= topk_prefix(scores, 0, k));
            assert(ints(norm_q@).len() == norm_q@.len());
            assert(q.len() == ints(query@).len());
        }
        while i < n
            invariant
                0 <= i <= n,
                self@.wf(),
                n == self@.count(),
                self@.dim == Option::Some(d as int),
                ints(norm_q@) == q,
                norm_q@.len() == d as int,
                scores == self@.scores(q),
                k == top_k as int,
                entries(cand@) == topk_prefix(scores, i as int, k),
            decreases n - i,
        {
            let rec = self.get_vector(i);
            let score = match dot_product(&rec, &norm_q) {
                Ok(s) => s,
                Err(_) => {
                    proof {
                        assert(false);
                    }
                    0
                },
            };
            let ghost acc = entries(cand@);
            let ghost e = (score as int, i as int);
            proof {
                assert(scores[i as int] == score as int);
                lemma_insert_pos_props(acc, e);
            }
            let clen = cand.len();
            let mut pos: usize = 0;
            while pos < clen && cand[pos].0 >= score
                invariant
                    0 <= pos <= clen,
                    clen == cand@.len(),
                    acc == entries(cand@),
                    e == (score as int, i as int),
                    forall|p: int| 0 <= p < pos as int ==> (#[trigger] acc[p]).0 >= e.0,
                decreases clen - pos,
            {
                proof {
                    assert(acc[pos as int].0 == cand@[pos as int].0 as int);
                }
                pos = pos + 1;
            }
            proof {
                // The scan found exactly the specified insertion position.
                let sp = insert_pos(acc, e);
                if sp < pos as int {
                    assert(acc[sp].0 >= e.0);
                } else if sp > pos as int {
                    assert((pos as int) < acc.len());
                    assert(acc[pos as int].0 >= e.0);
                    assert(acc[pos as int].0 == cand@[pos as int].0 as int);
                }
                assert(sp == pos as int);
            }
            cand.insert(pos, (score, i));
            proof {
                assert(entries(cand@) =~= acc.insert(pos as int, e));
            }
            if cand.len() > top_k {
                let ghost before = entries(cand@);
                cand.truncate(top_k);
                proof {
                    assert(entries(cand@) =~= before.take(k));
                }
            }
            proof {
                assert(entries(cand@) =~= topk_insert(acc, e, k));
            }
            i = i + 1;
        }
        proof {
            assert(scores.len() == n as int);
            assert(entries(cand@) == topk(scores, k));
            lemma_topk_prefix_inv(scores, n as int, k);
        }
        let ghost sel = topk(scores, k);
        let clen = cand.len();
        let mut out: Vec<(String, Vec<i32>, i128)> = Vec::new();
        let mut p: usize = 0;
        while p < clen
            invariant
                0 <= p <= clen,
                self@.wf(),
                n == self@.count(),
                self@.dim == Option::Some(d as int),
                clen == cand@.len(),
                entries(cand@) == sel,
                topk_inv(sel, scores, n as int, k),
                out@.len() == p as int,
                forall|t: int|
                    0 <= t < p as int ==> (#[trigger] out@[t]).0@ == self@.ids[sel[t].1] && ints(
                        out@[t].1@,
                    ) == self@.record(sel[t].1) && out@[t].2 as int == sel[t].0,
            decreases clen - p,
        {
            let (sc, idx) = cand[p];
            proof {
                assert(sel[p as int] == (sc as int, idx as int));
                assert(0 <= sel[p as int].1 < n as int);
            }
            let name = self.ids[idx].clone();
            let vec = self.get_vector(idx);
            proof {
                assert(name@ == self@.ids[idx as int]);
            }
            out.push((name, vec, sc));
            p = p + 1;
        }
        proof {
            // Non-increasing scores follow from the strict ranking order.
            assert forall|a: int, b: int|
                0 <= a < b < out@.len() implies (#[trigger] out@[a]).2
                >= (#[trigger] out@[b]).2 by {
                assert(entry_better(sel[a], sel[b]));
            }
        }
        Ok(out)
    }
}

/// The ghost pairs of an executable candidate list.
pub open spec fn entries(s: Seq<(i128, usize)>) -> Seq<(int, int)> {
    s.map_values(|e: (i128, usize)| (e.0 as int, e.1 as int))
}

} // verus!
