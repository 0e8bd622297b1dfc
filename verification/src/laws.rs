//! The store's cross-operation guarantees, stated and proved over the
//! mathematical model. Each law here relates several operations; guarantees
//! of a single operation stand in that operation's own contract.

use crate::db::{
    find_id, insert_check, lemma_find_id, lemma_find_id_unique, search_check, spec_delete,
    spec_insert, StoreModel,
};
use crate::errors::VecError;
use crate::vector::{
    abs_sum, abs_val, lemma_abs_sum_nonneg, lemma_cauchy_schwarz, lemma_round_div_err,
    lemma_sqrt_floor_at_least, lemma_sqrt_floor_bounds, lemma_square_mono, lemma_sum_sq_nonneg, norm_scale, norm_spec, round_div, sqrt_floor,
    sum_sq, SCALE, SCALE_SQ,
};
use vstd::arithmetic::mul::{lemma_mul_basics, lemma_mul_inequality, lemma_mul_is_distributive_add_other_way};
use vstd::prelude::*;

verus! {

/// Normalization against an explicit micro-unit magnitude `m`.
pub open spec fn norm_with(s: Seq<int>, m: int) -> Seq<int> {
    Seq::new(s.len(), |i: int| round_div(s[i] * SCALE_SQ, m))
}

/// One step of the summed rounding-error bound: adding one component adds
/// its own error budget.
proof fn lemma_err_step(qq: int, sd: int, ad: int, k: int, q2: int, x2: int, xa: int, m: int, l: int)
    requires
        4 * (m * m) * qq <= 4 * (l * l) * sd + 4 * (m * l) * ad + k * (m * m),
        4 * (m * m) * qq >= 4 * (l * l) * sd - 4 * (m * l) * ad,
        4 * (m * m) * q2 <= 4 * (l * l) * x2 + 4 * (xa * l) * m + m * m,
        4 * (m * m) * q2 >= 4 * (l * l) * x2 - 4 * (xa * l) * m,
    ensures
        4 * (m * m) * (qq + q2) <= 4 * (l * l) * (sd + x2) + 4 * (m * l) * (ad + xa) + (k + 1) * (
        m * m),
        4 * (m * m) * (qq + q2) >= 4 * (l * l) * (sd + x2) - 4 * (m * l) * (ad + xa),
{
    assert(4 * (m * m) * (qq + q2) == 4 * (m * m) * qq + 4 * (m * m) * q2) by (nonlinear_arith);
    assert(4 * (l * l) * (sd + x2) == 4 * (l * l) * sd + 4 * (l * l) * x2) by (nonlinear_arith);
    assert(4 * (m * l) * (ad + xa) == 4 * (m * l) * ad + 4 * (m * l) * xa) by (nonlinear_arith);
    assert((k + 1) * (m * m) == k * (m * m) + m * m) by (nonlinear_arith);
    assert(4 * (xa * l) * m == 4 * (m * l) * xa) by (nonlinear_arith);
}

/// The summed rounding-error bound: normalizing against any positive
/// magnitude `m`, the squared micro-unit sum sits within one cross term and
/// half an ulp per component of the exact ratio.
proof fn lemma_norm_with_err(s: Seq<int>, m: int)
    requires
        m >= 1,
    ensures
        4 * (m * m) * sum_sq(norm_with(s, m)) <= 4 * ((SCALE_SQ as int) * (SCALE_SQ as int))
            * sum_sq(s) + 4 * (m * (SCALE_SQ as int)) * abs_sum(s) + s.len() * (m * m),
        4 * (m * m) * sum_sq(norm_with(s, m)) >= 4 * ((SCALE_SQ as int) * (SCALE_SQ as int))
            * sum_sq(s) - 4 * (m * (SCALE_SQ as int)) * abs_sum(s),
    decreases s.len(),
{
    let l = SCALE_SQ as int;
    if s.len() == 0 {
        assert(norm_with(s, m) =~= Seq::<int>::empty());
        assert(4 * (m * m) * 0 == 0 && 4 * (l * l) * 0 == 0 && 4 * (m * l) * 0 == 0 && 0 * (m * m)
            == 0) by (nonlinear_arith);
    } else {
        let d = s.drop_last();
        let x = s.last();
        lemma_norm_with_err(d, m);
        assert(norm_with(s, m).drop_last() =~= norm_with(d, m));
        let q = round_div(x * l, m);
        assert(norm_with(s, m).last() == q);
        assert(sum_sq(norm_with(s, m)) == sum_sq(norm_with(d, m)) + q * q);
        lemma_round_div_err(x * l, m);
        let xa = abs_val(x);
        assert((x * l) * (x * l) == (l * l) * (x * x) && abs_val(x * l) == xa * l)
            by (nonlinear_arith)
            requires
                l >= 1,
                xa == abs_val(x),
                (x >= 0 ==> xa == x) && (x < 0 ==> xa == -x),
                (x * l >= 0 ==> abs_val(x * l) == x * l) && (x * l < 0 ==> abs_val(x * l) == -(x
                    * l)),
        ;
        assert(4 * (m * m) * (q * q) <= 4 * ((l * l) * (x * x)) + 4 * ((xa * l)) * m + m * m);
        assert(4 * ((l * l) * (x * x)) == 4 * (l * l) * (x * x)) by (nonlinear_arith);
        lemma_err_step(
            sum_sq(norm_with(d, m)),
            sum_sq(d),
            abs_sum(d),
            d.len() as int,
            q * q,
            x * x,
            xa,
            m,
            l,
        );
    }
}

/// Cancelling a positive common factor from an inequality.
proof fn lemma_cancel_le(c: int, x: int, r: int)
    requires
        c >= 1,
        c * x <= c * r,
    ensures
        x <= r,
{
    assert(x <= r) by (nonlinear_arith)
        requires
            c >= 1,
            c * x <= c * r,
    ;
}

/// The arithmetic core of the normalization bound: from the summed rounding
/// error, the magnitude bracketing of the integer square root, and
/// Cauchy-Schwarz, the squared micro-unit sum lands within the stated budget
/// of one.
proof fn lemma_norm_err_chase(x: int, sig: int, a: int, n: int, m: int, i: int, s: int, l: int)
    requires
        s >= 1,
        l == s * s,
        m >= s,
        n >= 1,
        sig >= 1,
        a >= 0,
        x >= 0,
        i >= 0,
        m * m <= sig * l,
        sig * l < (m + 1) * (m + 1),
        a * a <= n * sig,
        n < (i + 1) * (i + 1),
        4 * (m * m) * x <= 4 * (l * l) * sig + 4 * (m * l) * a + n * (m * m),
        4 * (m * m) * x >= 4 * (l * l) * sig - 4 * (m * l) * a,
    ensures
        x <= l + 2 * s * i + 5 * s + n,
        x >= l - 2 * s * i - 2 * s,
{
    assert(l >= 1) by (nonlinear_arith)
        requires
            l == s * s,
            s >= 1,
    ;
    // Cauchy-Schwarz scaled: (a*s)^2 < ((i+1)*(m+1))^2, so a*s < (i+1)*(m+1).
    assert((a * s) * (a * s) < ((i + 1) * (m + 1)) * ((i + 1) * (m + 1))) by (nonlinear_arith)
        requires
            l == s * s,
            a >= 0,
            s >= 1,
            sig >= 1,
            n >= 1,
            i >= 0,
            m >= 1,
            a * a <= n * sig,
            sig * l < (m + 1) * (m + 1),
            n < (i + 1) * (i + 1),
    ;
    assert(a * s < (i + 1) * (m + 1)) by (nonlinear_arith)
        requires
            a >= 0,
            s >= 1,
            i >= 0,
            m >= 1,
            (a * s) * (a * s) < ((i + 1) * (m + 1)) * ((i + 1) * (m + 1)),
    ;
    // The cross term: 4*(m*l)*a <= 8*(m*m)*(s*(i+1)).
    assert(4 * (m * l) * a <= 8 * (m * m) * (s * (i + 1))) by (nonlinear_arith)
        requires
            l == s * s,
            a >= 0,
            s >= 1,
            m >= 1,
            i >= 0,
            a * s < (i + 1) * (m + 1),
    ;
    // The head term, upper: 4*(l*l)*sig <= 4*(m*m)*l + 8*(m*l).
    assert(4 * (l * l) * sig <= 4 * (m * m) * l + 8 * (m * l)) by (nonlinear_arith)
        requires
            l >= 1,
            m >= 1,
            sig * l < (m + 1) * (m + 1),
    ;
    // The head term, lower: 4*(l*l)*sig >= 4*(m*m)*l.
    assert(4 * (l * l) * sig >= 4 * (m * m) * l) by (nonlinear_arith)
        requires
            l >= 1,
            m * m <= sig * l,
    ;
    // Name every monomial, so the final bookkeeping is linear.
    let mmx = (m * m) * x;
    let lls = (l * l) * sig;
    let mla = (m * l) * a;
    let mmn = (m * m) * n;
    let mml = (m * m) * l;
    let mlu = m * l;
    let mms = (m * m) * s;
    let mmsi = (m * m) * (s * i);
    assert(4 * (m * m) * x == 4 * mmx && 4 * (l * l) * sig == 4 * lls && 4 * (m * l) * a == 4
        * mla && n * (m * m) == mmn && 4 * (m * m) * l == 4 * mml && 8 * (m * l) == 8 * mlu)
        by (nonlinear_arith)
        requires
            mmx == (m * m) * x,
            lls == (l * l) * sig,
            mla == (m * l) * a,
            mmn == (m * m) * n,
            mml == (m * m) * l,
            mlu == m * l,
    ;
    assert(8 * (m * m) * (s * (i + 1)) == 8 * mmsi + 8 * mms) by (nonlinear_arith)
        requires
            mmsi == (m * m) * (s * i),
            mms == (m * m) * s,
    ;
    // The slack facts, over the named monomials.
    assert(mlu <= mms && mms >= 0 && mmn >= 0) by (nonlinear_arith)
        requires
            l == s * s,
            1 <= s <= m,
            n >= 1,
            mlu == m * l,
            mms == (m * m) * s,
            mmn == (m * m) * n,
    ;
    // Upper side: combine linearly and cancel the positive factor.
    let ru = l + 2 * s * i + 5 * s + n;
    assert(4 * (m * m) * ru == 4 * mml + 8 * mmsi + 20 * mms + 4 * mmn) by (nonlinear_arith)
        requires
            ru == l + 2 * s * i + 5 * s + n,
            mmn == (m * m) * n,
            mml == (m * m) * l,
            mms == (m * m) * s,
            mmsi == (m * m) * (s * i),
    ;
    assert(4 * mmx <= 4 * mml + 8 * mlu + 8 * mmsi + 8 * mms + mmn);
    assert(4 * (m * m) * x <= 4 * (m * m) * ru);
    assert(4 * (m * m) >= 1) by (nonlinear_arith)
        requires
            m >= 1,
    ;
    lemma_cancel_le(4 * (m * m), x, ru);
    // Lower side, the same way.
    let rl = l - 2 * s * i - 2 * s;
    assert(4 * (m * m) * rl == 4 * mml - 8 * mmsi - 8 * mms) by (nonlinear_arith)
        requires
            rl == l - 2 * s * i - 2 * s,
            mml == (m * m) * l,
            mms == (m * m) * s,
            mmsi == (m * m) * (s * i),
    ;
    assert(4 * mmx >= 4 * lls - 4 * mla);
    assert(4 * (m * m) * rl <= 4 * (m * m) * x);
    lemma_cancel_le(4 * (m * m), rl, x);
}

/// Normalization error, in exact integers: for any non-zero vector, the sum
/// of squares of its normalized form differs from `SCALE^2` by at most
/// `2 * SCALE * sqrt(len) + 5 * SCALE + len` squared micro-units. The
/// `sqrt(len)` term is the worst case of each component rounding half a
/// micro-unit in a correlated direction.
pub proof fn lemma_normalization_error(v: Seq<int>)
    requires
        v.len() >= 1,
        sum_sq(v) >= 1,
    ensures
        sum_sq(norm_spec(v)) <= (SCALE_SQ as int) + 2 * (SCALE as int) * (sqrt_floor(v.len())
            as int) + 5 * (SCALE as int) + v.len(),
        sum_sq(norm_spec(v)) >= (SCALE_SQ as int) - 2 * (SCALE as int) * (sqrt_floor(v.len())
            as int) - 2 * (SCALE as int),
{
    let s = SCALE as int;
    let l = SCALE_SQ as int;
    let n = v.len() as int;
    let sig = sum_sq(v);
    let a = abs_sum(v);
    let t = sig * l;
    let m = norm_scale(v);
    assert((SCALE as int) * (SCALE as int) == SCALE_SQ as int) by (nonlinear_arith);
    // The magnitude brackets: m^2 <= sig * l < (m+1)^2, and m >= SCALE.
    assert(t >= l) by (nonlinear_arith)
        requires
            sig >= 1,
            l >= 1,
            t == sig * l,
    ;
    lemma_sqrt_floor_bounds(t as nat);
    lemma_sqrt_floor_at_least(t as nat, SCALE as nat);
    assert(m == sqrt_floor(t as nat) as int);
    // Cauchy-Schwarz and the square root of the length.
    lemma_cauchy_schwarz(v);
    lemma_abs_sum_nonneg(v);
    let i = sqrt_floor(v.len()) as int;
    lemma_sqrt_floor_bounds(v.len());
    // The summed rounding error, against the actual magnitude.
    assert(norm_spec(v) =~= norm_with(v, m));
    lemma_norm_with_err(v, m);
    lemma_sum_sq_nonneg(norm_spec(v));
    lemma_norm_err_chase(sum_sq(norm_spec(v)), sig, a, n, m, i, s, l);
}

/// The normalization invariant: for vectors of up to 63 components, the
/// normalized form's magnitude is within ten micro-units — one part in
/// 100000 — of one. (With more components the worst-case rounding budget of
/// half a micro-unit per component can exceed that tolerance; the general
/// bound is [`lemma_normalization_error`].)
pub proof fn lemma_normalization_invariant(v: Seq<int>)
    requires
        1 <= v.len() <= 63,
        sum_sq(v) >= 1,
    ensures
        ((SCALE as int) - 10) * ((SCALE as int) - 10) <= sum_sq(norm_spec(v)),
        sum_sq(norm_spec(v)) <= ((SCALE as int) + 10) * ((SCALE as int) + 10),
{
    lemma_normalization_error(v);
    let i = sqrt_floor(v.len()) as int;
    assert(i <= 7) by {
        if i >= 8 {
            lemma_square_mono(8, i);
            lemma_sqrt_floor_bounds(v.len());
        }
    }
    assert(i >= 0);
    let s = SCALE as int;
    assert(2 * s * i <= 14 * s) by (nonlinear_arith)
        requires
            0 <= i <= 7,
            s >= 1,
    ;
    assert(2 * s * i >= 0) by (nonlinear_arith)
        requires
            i >= 0,
            s >= 1,
    ;
    assert((SCALE as int) * (SCALE as int) == SCALE_SQ as int) by (nonlinear_arith);
    assert((s - 10) * (s - 10) == (SCALE_SQ as int) - 20 * s + 100 && (s + 10) * (s + 10) == (
    SCALE_SQ as int) + 20 * s + 100) by (nonlinear_arith)
        requires
            s == SCALE as int,
            s * s == SCALE_SQ as int,
    ;
}

/// Dimension lock-in: a successful insert locks the store to the vector's
/// length, and from then on any insert or search with a vector of a
/// different length is turned away with `DimensionMismatch`. (The turned-away
/// operation leaves the store untouched: that stands in each operation's own
/// contract.)
pub proof fn lemma_dimension_lock_in(m: StoreModel, id: Seq<char>, v: Seq<int>, w: Seq<int>)
    requires
        m.wf(),
        insert_check(m, v) is None,
        w.len() != v.len(),
    ensures
        spec_insert(m, id, v).dim == Option::Some(v.len() as int),
        insert_check(spec_insert(m, id, v), w) == Option::Some(VecError::DimensionMismatch),
        search_check(spec_insert(m, id, v), w) == Option::Some(VecError::DimensionMismatch),
{
    lemma_find_id(m.ids, id);
    if m.dim is None {
        assert(m.ids.len() == 0);
        assert(find_id(m.ids, id) == -1);
    }
}

/// Upsert: inserting under an identifier that is already present overwrites
/// that record in place. The record count and every identifier stay as they
/// were, and the record under the identifier becomes exactly the normalized
/// form of the new vector.
pub proof fn lemma_upsert(m: StoreModel, id: Seq<char>, v: Seq<int>)
    requires
        m.wf(),
        insert_check(m, v) is None,
        find_id(m.ids, id) >= 0,
    ensures
        spec_insert(m, id, v).count() == m.count(),
        spec_insert(m, id, v).ids == m.ids,
        spec_insert(m, id, v).dim == m.dim,
        spec_insert(m, id, v).record(find_id(m.ids, id)) == norm_spec(v),
{
    lemma_find_id(m.ids, id);
    let i = find_id(m.ids, id);
    let d = v.len() as int;
    let m2 = spec_insert(m, id, v);
    // A hit means the store holds records, so its dimension is locked in
    // and the overwritten range lies inside the buffer.
    assert(m.dim == Option::Some(d));
    lemma_mul_basics(d);
    lemma_mul_inequality(i + 1, m.count(), d);
    lemma_mul_is_distributive_add_other_way(d, i, 1);
    assert(norm_spec(v).len() == d);
    assert(m2.record(i) =~= norm_spec(v));
}

/// Delete then reinsert: after a delete the identifier reads as absent, and
/// a later insert of a vector of the locked-in dimension under the same
/// identifier succeeds and is retrievable as the normalized form of that
/// vector.
pub proof fn lemma_delete_insert_cycle(m: StoreModel, id: Seq<char>, v: Seq<int>)
    requires
        m.wf(),
        m.dim is Some,
        find_id(m.ids, id) >= 0,
        v.len() as int == m.dim->Some_0,
        crate::vector::sum_sq(v) != 0,
    ensures
        find_id(spec_delete(m, id).ids, id) == -1,
        insert_check(spec_delete(m, id), v) is None,
        ({
            let m3 = spec_insert(spec_delete(m, id), id, v);
            &&& find_id(m3.ids, id) == m3.count() - 1
            &&& m3.record(find_id(m3.ids, id)) == norm_spec(v)
        }),
{
    lemma_find_id(m.ids, id);
    let i = find_id(m.ids, id);
    let d = m.dim->Some_0;
    let m2 = spec_delete(m, id);
    m.ids.remove_ensures(i);
    // After the delete no identifier equals `id`: the survivors were all
    // distinct from the removed one.
    assert forall|p: int| 0 <= p < m2.ids.len() implies m2.ids[p] != id by {
        if p < i {
            assert(m2.ids[p] == m.ids[p]);
        } else {
            assert(m2.ids[p] == m.ids[p + 1]);
        }
    }
    lemma_find_id(m2.ids, id);
    if find_id(m2.ids, id) >= 0 {
        assert(m2.ids[find_id(m2.ids, id)] == id);
    }
    assert(find_id(m2.ids, id) == -1);
    assert(v.len() >= 1);
    // The reinsert appends: the identifier lands at the end, over the
    // normalized coordinates.
    let m3 = spec_insert(m2, id, v);
    assert(m3.ids == m2.ids.push(id));
    assert forall|p: int| 0 <= p < m2.ids.len() implies m3.ids[p] != id by {
        assert(m3.ids[p] == m2.ids[p]);
    }
    assert(m3.ids[m2.ids.len() as int] == id);
    lemma_find_id_unique(m3.ids, id, m2.ids.len() as int);
    // The fresh record's range reads back as the normalized vector.
    let j = m2.ids.len() as int;
    lemma_mul_basics(d);
    lemma_mul_inequality(i + 1, m.count(), d);
    lemma_mul_is_distributive_add_other_way(d, i, 1);
    lemma_mul_is_distributive_add_other_way(d, m.count() - 1, 1);
    assert(m2.data.len() == (m.count() - 1) * d);
    assert(norm_spec(v).len() == v.len() as int);
    lemma_mul_is_distributive_add_other_way(d, j, 1);
    assert(m3.record(j) =~= norm_spec(v));
}

} // verus!
