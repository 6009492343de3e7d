//! The n-dimensional array buffer underlying a block: a shape and a flat,
//! row-major element vector whose length is the product of the extents.

use vstd::prelude::*;
use vstd::string::StringExecFns;
use crate::error::Error;
use crate::strings::dec_digits;

verus! {

/// Product of the extents of a shape.
pub open spec fn shape_prod(s: Seq<usize>) -> int
    decreases s.len(),
{
    if s.len() == 0 {
        1
    } else {
        s[0] * shape_prod(s.drop_first())
    }
}

/// The product over a shape splits at any position.
pub proof fn lemma_prod_split(s: Seq<usize>, m: int)
    requires
        0 <= m <= s.len(),
    ensures
        shape_prod(s) == shape_prod(s.take(m)) * shape_prod(s.skip(m)),
    decreases m,
{
    if m == 0 {
        assert(s.take(0) =~= Seq::<usize>::empty());
        assert(s.skip(0) =~= s);
    } else {
        let d = s.drop_first();
        lemma_prod_split(d, m - 1);
        assert(s.take(m).drop_first() =~= d.take(m - 1));
        assert(s.skip(m) =~= d.skip(m - 1));
        assert(s.take(m).len() != 0);
        assert(s.take(m)[0] == s[0]);
        assert(shape_prod(s.take(m)) == s[0] * shape_prod(d.take(m - 1)));
        assert(s[0] * (shape_prod(d.take(m - 1)) * shape_prod(d.skip(m - 1))) == (s[0]
            * shape_prod(d.take(m - 1))) * shape_prod(d.skip(m - 1))) by (nonlinear_arith);
    }
}

/// Appending one extent multiplies the product by it.
pub proof fn lemma_prod_push(s: Seq<usize>, x: usize)
    ensures
        shape_prod(s.push(x)) == shape_prod(s) * x,
{
    let p = s.push(x);
    lemma_prod_split(p, s.len() as int);
    assert(p.take(s.len() as int) =~= s);
    assert(p.skip(s.len() as int) =~= seq![x]);
    assert(seq![x].drop_first() =~= Seq::<usize>::empty());
    assert(shape_prod(Seq::<usize>::empty()) == 1);
    assert(shape_prod(seq![x]) == x * 1);
}

/// A shape of positive extents has a positive product.
pub proof fn lemma_prod_all_pos(s: Seq<usize>)
    requires
        forall|i: int| 0 <= i < s.len() ==> s[i] >= 1,
    ensures
        shape_prod(s) >= 1,
    decreases s.len(),
{
    if s.len() > 0 {
        lemma_prod_all_pos(s.drop_first());
        assert(s[0] * shape_prod(s.drop_first()) >= 1) by (nonlinear_arith)
            requires
                s[0] >= 1,
                shape_prod(s.drop_first()) >= 1,
        {}
    }
}

/// Message for data whose length does not match the shape.
pub open spec fn msg_data_length(got: int) -> Seq<char> {
    "the array data has "@ + dec_digits(got)
        + " elements, which does not match the given shape"@
}

/// Message when a folded property axis cannot be represented in memory.
pub open spec fn msg_fold_too_large() -> Seq<char> {
    "the merged property axis is too large"@
}

/// A row-major n-dimensional array of integers.
///
/// The first axis indexes samples, the last axis properties, and the middle
/// axes components of the block holding this array.
#[derive(Debug, Clone)]
pub struct ArrayData {
    shape: Vec<usize>,
    data: Vec<i64>,
}

impl ArrayData {
    /// The extents of the axes.
    pub closed spec fn shape_v(&self) -> Seq<usize> {
        self.shape@
    }

    /// The elements, flattened in row-major order.
    pub closed spec fn data_v(&self) -> Seq<i64> {
        self.data@
    }

    /// Well-formedness: the element count is the product of the extents.
    pub open spec fn wf(&self) -> bool {
        shape_prod(self.shape_v()) == self.data_v().len()
    }

    /// Build an array from a shape and its row-major elements.
    ///
    /// Fails when the number of elements is not the product of the extents.
    pub fn new(shape: Vec<usize>, data: Vec<i64>) -> (r: Result<ArrayData, Error>)
        ensures
            (r is Ok) <==> shape_prod(shape@) == data@.len(),
            r matches Ok(a) ==> a.wf() && a.shape_v() == shape@ && a.data_v() == data@,
            r matches Err(e) ==> e.text() == msg_data_length(data@.len() as int),
    {
        let mut has_zero = false;
        let ghost mut zero_idx: int = 0;
        let mut i: usize = 0;
        while i < shape.len()
            invariant
                i <= shape.len(),
                has_zero ==> 0 <= zero_idx < i && shape@[zero_idx] == 0,
                !has_zero ==> forall|k: int| 0 <= k < i ==> shape@[k] != 0,
            decreases shape.len() - i,
        {
            if shape[i] == 0 {
                has_zero = true;
                proof {
                    zero_idx = i as int;
                }
            }
            i = i + 1;
        }
        if has_zero {
            proof {
                let k = zero_idx;
                lemma_prod_split(shape@, k);
                lemma_prod_split(shape@.skip(k), 1);
                assert(shape@.skip(k).take(1) =~= seq![shape@[k]]);
                assert(seq![shape@[k]].drop_first() =~= Seq::<usize>::empty());
                assert(shape_prod(Seq::<usize>::empty()) == 1);
                assert(shape_prod(seq![shape@[k]]) == 0);
                assert(shape_prod(shape@.skip(k)) == 0) by (nonlinear_arith)
                    requires
                        shape_prod(shape@.skip(k)) == shape_prod(shape@.skip(k).take(1))
                            * shape_prod(shape@.skip(k).skip(1)),
                        shape_prod(shape@.skip(k).take(1)) == 0,
                {}
                assert(shape_prod(shape@) == shape_prod(shape@.take(k)) * 0) by (
                nonlinear_arith)
                    requires
                        shape_prod(shape@.skip(k)) == 0,
                        shape_prod(shape@) == shape_prod(shape@.take(k)) * shape_prod(
                            shape@.skip(k),
                        ),
                {}
            }
            if data.len() == 0 {
                return Ok(ArrayData { shape, data });
            } else {
                return Err(Error::invalid_parameter(Self::data_length_message(&data)));
            }
        }
        let mut acc: usize = 1;
        let mut j: usize = 0;
        proof {
            assert(shape@.take(0) =~= Seq::<usize>::empty());
        }
        while j < shape.len()
            invariant
                j <= shape.len(),
                forall|k: int| 0 <= k < shape@.len() ==> shape@[k] >= 1,
                acc == shape_prod(shape@.take(j as int)),
            decreases shape.len() - j,
        {
            let extent = shape[j];
            proof {
                lemma_prod_push(shape@.take(j as int), shape@[j as int]);
                assert(shape@.take(j as int).push(shape@[j as int]) =~= shape@.take(
                    j as int + 1,
                ));
            }
            match acc.checked_mul(extent) {
                Some(next) => {
                    acc = next;
                },
                None => {
                    let n = data.len();
                    proof {
                        assert(n == data@.len());
                        lemma_prod_split(shape@, j as int + 1);
                        lemma_prod_all_pos(shape@.skip(j as int + 1));
                        assert(shape_prod(shape@) > usize::MAX) by (nonlinear_arith)
                            requires
                                shape_prod(shape@) == shape_prod(shape@.take(j as int + 1))
                                    * shape_prod(shape@.skip(j as int + 1)),
                                shape_prod(shape@.take(j as int + 1)) > usize::MAX,
                                shape_prod(shape@.skip(j as int + 1)) >= 1,
                        {}
                    }
                    return Err(Error::invalid_parameter(Self::data_length_message(&data)));
                },
            }
            j = j + 1;
        }
        proof {
            assert(shape@.take(shape@.len() as int) =~= shape@);
        }
        if data.len() == acc {
            Ok(ArrayData { shape, data })
        } else {
            Err(Error::invalid_parameter(Self::data_length_message(&data)))
        }
    }

    fn data_length_message(data: &Vec<i64>) -> (m: String)
        ensures
            m@ == msg_data_length(data@.len() as int),
    {
        let mut m = String::from_str("the array data has ");
        let n = crate::strings::usize_string(data.len());
        m.append(n.as_str());
        m.append(" elements, which does not match the given shape");
        proof {
            assert(m@ =~= msg_data_length(data@.len() as int));
        }
        m
    }


    /// Fold the given axis into the last axis: the result's last axis
    /// enumerates pairs of the folded axis's index (slow) and the old last
    /// axis's index (fast), so element `(a, b, c * P + p)` of the result is
    /// element `(a, c, b, p)` of this array.
    ///
    /// Fails only when the merged last extent does not fit in memory.
    pub fn fold_axis(&self, axis: usize) -> (r: Result<ArrayData, Error>)
        requires
            self.wf(),
            0 < axis,
            axis + 1 < self.shape_v().len(),
        ensures
            (r is Ok) <==> self.shape_v()[axis as int] * self.shape_v()[self.shape_v().len()
                - 1] <= usize::MAX,
            r matches Ok(out) ==> {
                let b_count = shape_prod(
                    self.shape_v().subrange(axis as int + 1, self.shape_v().len() - 1),
                );
                let c_count = self.shape_v()[axis as int] as int;
                let p_count = self.shape_v()[self.shape_v().len() - 1] as int;
                &&& out.wf()
                &&& out.shape_v() == folded_shape(self.shape_v(), axis as int)
                &&& out.data_v().len() == self.data_v().len()
                &&& forall|i: int|
                    0 <= i < out.data_v().len() ==> out.data_v()[i] == self.data_v()[fold_src(
                        i,
                        b_count,
                        c_count,
                        p_count,
                    )]
            },
            r matches Err(e) ==> e.text() == msg_fold_too_large(),
    {
        let ghost sv = self.shape_v();
        let rank = self.shape.len();
        let c = self.shape[axis];
        let p = self.shape[rank - 1];
        let cp = match c.checked_mul(p) {
            Some(v) => v,
            None => {
                return Err(Error::invalid_parameter(String::from_str(
                    "the merged property axis is too large",
                )));
            },
        };
        let mut new_shape: Vec<usize> = Vec::new();
        let mut k: usize = 0;
        while k < axis
            invariant
                k <= axis,
                axis < rank,
                rank == sv.len(),
                sv == self.shape_v(),
                new_shape@ == sv.take(k as int),
            decreases axis - k,
        {
            new_shape.push(self.shape[k]);
            proof {
                assert(new_shape@ =~= sv.take(k as int + 1));
            }
            k = k + 1;
        }
        let mut k2: usize = axis + 1;
        while k2 < rank - 1
            invariant
                axis + 1 <= k2 <= rank - 1,
                axis + 1 < rank,
                rank == sv.len(),
                sv == self.shape_v(),
                new_shape@ == sv.take(axis as int) + sv.subrange(axis as int + 1, k2 as int),
            decreases rank - 1 - k2,
        {
            new_shape.push(self.shape[k2]);
            proof {
                assert(new_shape@ =~= sv.take(axis as int) + sv.subrange(
                    axis as int + 1,
                    k2 as int + 1,
                ));
            }
            k2 = k2 + 1;
        }
        proof {
            assert(sv.subrange(axis as int + 1, axis as int + 1) =~= Seq::<usize>::empty());
            assert(new_shape@ == sv.take(axis as int) + sv.subrange(
                axis as int + 1,
                rank as int - 1,
            ));
        }
        new_shape.push(cp);
        proof {
            assert(new_shape@ =~= folded_shape(sv, axis as int));
            lemma_folded_prod(sv, axis as int);
        }
        let total = self.data.len();
        let mut out_data: Vec<i64> = Vec::new();
        if total > 0 {
            proof {
                lemma_pos_extents(sv);
                assert(sv.subrange(axis as int + 1, axis as int + 1) =~= Seq::<
                    usize,
                >::empty());
            }
            let mut b: usize = 1;
            let mut m: usize = axis + 1;
            while m < rank - 1
                invariant
                    axis as int + 1 <= m <= rank - 1,
                    0 < axis,
                    axis + 1 < rank,
                    rank == sv.len(),
                    sv == self.shape_v(),
                    self.wf(),
                    total == self.data_v().len(),
                    total > 0,
                    forall|q: int| 0 <= q < sv.len() ==> sv[q] >= 1,
                    b == shape_prod(sv.subrange(axis as int + 1, m as int)),
                decreases rank - 1 - m,
            {
                proof {
                    lemma_subrange_prod_le(sv, axis as int + 1, m as int + 1);
                    assert(sv.subrange(axis as int + 1, m as int + 1) =~= sv.subrange(
                        axis as int + 1,
                        m as int,
                    ).push(sv[m as int]));
                    lemma_prod_push(sv.subrange(axis as int + 1, m as int), sv[m as int]);
                }
                b = b * self.shape[m];
                m = m + 1;
            }
            let ghost aa = shape_prod(sv.take(axis as int));
            proof {
                lemma_fold_counts(sv, axis as int);
                assert(sv.take(axis as int) =~= sv.subrange(0, axis as int));
                lemma_subrange_prod_le(sv, 0, axis as int);
                lemma_subrange_prod_le(sv, axis as int + 1, rank as int - 1);
                assert(total == ((aa * c) * b) * p);
                assert(p * c == c * p) by (nonlinear_arith);
                assert(c * p <= total) by (nonlinear_arith)
                    requires
                        total == ((aa * c) * b) * p,
                        aa >= 1,
                        b >= 1,
                        c >= 1,
                        p >= 1,
                {}
            }
            let pc = p * c;
            proof {
                assert(pc * b <= total) by (nonlinear_arith)
                    requires
                        total == ((aa * c) * b) * p,
                        pc == p * c,
                        aa >= 1,
                        b >= 1,
                        c >= 1,
                        p >= 1,
                {}
            }
            let pcb = pc * b;
            proof {
                assert(pc >= 1 && pcb >= 1) by (nonlinear_arith)
                    requires
                        pc == p * c,
                        pcb == pc * b,
                        p >= 1,
                        c >= 1,
                        b >= 1,
                {}
            }
            let mut i: usize = 0;
            while i < total
                invariant
                    i <= total,
                    sv == self.shape_v(),
                    self.wf(),
                    rank == sv.len(),
                    total == self.data_v().len(),
                    0 < axis,
                    axis + 1 < rank,
                    c == sv[axis as int],
                    p == sv[rank - 1],
                    b == shape_prod(sv.subrange(axis as int + 1, rank as int - 1)),
                    c >= 1,
                    p >= 1,
                    b >= 1,
                    aa >= 1,
                    pc == p * c,
                    pcb == pc * b,
                    pc >= 1,
                    pcb >= 1,
                    aa == shape_prod(sv.take(axis as int)),
                    total == ((aa * c) * b) * p,
                    out_data@.len() == i,
                    forall|q: int|
                        0 <= q < i ==> out_data@[q] == self.data_v()[fold_src(
                            q,
                            b as int,
                            c as int,
                            p as int,
                        )],
                decreases total - i,
            {
                let p_i = i % p;
                let c_i = (i / p) % c;
                let b_i = (i / pc) % b;
                let a_i = i / pcb;
                proof {
                    vstd::arithmetic::div_mod::lemma_mod_division_less_than_divisor(
                        i as int,
                        p as int,
                    );
                    vstd::arithmetic::div_mod::lemma_mod_division_less_than_divisor(
                        i as int / p as int,
                        c as int,
                    );
                    vstd::arithmetic::div_mod::lemma_mod_division_less_than_divisor(
                        i as int / (pc as int),
                        b as int,
                    );
                    vstd::arithmetic::div_mod::lemma_div_pos_is_pos(i as int, p as int);
                    vstd::arithmetic::div_mod::lemma_div_pos_is_pos(i as int, pc as int);
                    vstd::arithmetic::div_mod::lemma_div_pos_is_pos(i as int, pcb as int);
                    vstd::arithmetic::div_mod::lemma_fundamental_div_mod(
                        i as int,
                        pcb as int,
                    );
                    assert(a_i < aa) by (nonlinear_arith)
                        requires
                            i as int == pcb as int * (a_i as int) + (i as int % pcb as int),
                            0 <= i as int % pcb as int,
                            i < total,
                            total == ((aa * c) * b) * p,
                            pcb == pc * b,
                            pc == p * c,
                            a_i as int == i as int / pcb as int,
                            a_i >= 0,
                    {}
                    lemma_fold_index_bounds(
                        a_i as int,
                        c_i as int,
                        b_i as int,
                        p_i as int,
                        aa,
                        c as int,
                        b as int,
                        p as int,
                    );
                    assert(aa * (c as int) * (b as int) * (p as int) == total) by (
                    nonlinear_arith)
                        requires
                            total == ((aa * c) * b) * p,
                    {}
                }
                let src = ((a_i * c + c_i) * b + b_i) * p + p_i;
                out_data.push(self.data[src]);
                proof {
                    assert(src as int == fold_src(i as int, b as int, c as int, p as int));
                }
                i = i + 1;
            }
        } else {
            proof {
                assert(out_data@.len() == total);
            }
        }
        proof {
            assert(shape_prod(new_shape@) == total);
        }
        Ok(ArrayData { shape: new_shape, data: out_data })
    }

    /// The extents of the axes.
    pub fn shape(&self) -> (r: &Vec<usize>)
        ensures
            r@ == self.shape_v(),
    {
        &self.shape
    }

    /// The flattened elements.
    pub fn data(&self) -> (r: &Vec<i64>)
        ensures
            r@ == self.data_v(),
    {
        &self.data
    }
}


/// Source flat index of the axis fold: the output array over extents
/// `(A, B, C, P)` reads input element `(a, c, b, p)` of the input array
/// over extents `(A, C, B, P)`, both in row-major order.
pub open spec fn fold_src(i: int, b_count: int, c_count: int, p_count: int) -> int {
    let p = i % p_count;
    let c = (i / p_count) % c_count;
    let b = (i / (p_count * c_count)) % b_count;
    let a = i / (p_count * c_count * b_count);
    ((a * c_count + c) * b_count + b) * p_count + p
}

/// The shape after folding axis `axis` into the last axis: the axis is
/// removed and the last extent is multiplied by the axis's extent.
pub open spec fn folded_shape(s: Seq<usize>, axis: int) -> Seq<usize> {
    s.take(axis) + s.subrange(axis + 1, s.len() - 1) + seq![(s[axis] * s[s.len() - 1]) as usize]
}

pub proof fn lemma_fold_index_bounds(
    a: int,
    c: int,
    b: int,
    p: int,
    ca: int,
    cc: int,
    cb: int,
    cp: int,
)
    by (nonlinear_arith)
    requires
        0 <= a < ca,
        0 <= c < cc,
        0 <= b < cb,
        0 <= p < cp,
    ensures
        0 <= a * cc + c < ca * cc,
        0 <= (a * cc + c) * cb + b < ca * cc * cb,
        0 <= ((a * cc + c) * cb + b) * cp + p < ca * cc * cb * cp,
        ca * cc <= ca * cc * cb * cp,
        ca * cc * cb <= ca * cc * cb * cp,
{
}

/// A zero extent anywhere makes the whole product zero.
pub proof fn lemma_zero_extent(s: Seq<usize>, k: int)
    requires
        0 <= k < s.len(),
        s[k] == 0,
    ensures
        shape_prod(s) == 0,
{
    lemma_prod_split(s, k);
    lemma_prod_split(s.skip(k), 1);
    assert(s.skip(k).take(1) =~= seq![s[k]]);
    assert(seq![s[k]].drop_first() =~= Seq::<usize>::empty());
    assert(shape_prod(Seq::<usize>::empty()) == 1);
    assert(shape_prod(seq![s[k]]) == 0);
    assert(shape_prod(s.skip(k)) == 0) by (nonlinear_arith)
        requires
            shape_prod(s.skip(k)) == shape_prod(s.skip(k).take(1)) * shape_prod(
                s.skip(k).skip(1),
            ),
            shape_prod(s.skip(k).take(1)) == 0,
    {}
    assert(shape_prod(s) == 0) by (nonlinear_arith)
        requires
            shape_prod(s) == shape_prod(s.take(k)) * shape_prod(s.skip(k)),
            shape_prod(s.skip(k)) == 0,
    {}
}

/// A positive product means every extent is positive.
pub proof fn lemma_pos_extents(s: Seq<usize>)
    requires
        shape_prod(s) > 0,
    ensures
        forall|k: int| 0 <= k < s.len() ==> s[k] >= 1,
{
    assert forall|k: int| 0 <= k < s.len() implies s[k] >= 1 by {
        if s[k] == 0 {
            lemma_zero_extent(s, k);
        }
    }
}

/// The product of a contiguous part of a shape of positive extents is at
/// least one and at most the whole product.
pub proof fn lemma_subrange_prod_le(s: Seq<usize>, lo: int, hi: int)
    requires
        0 <= lo <= hi <= s.len(),
        forall|k: int| 0 <= k < s.len() ==> s[k] >= 1,
    ensures
        1 <= shape_prod(s.subrange(lo, hi)) <= shape_prod(s),
{
    lemma_prod_split(s, lo);
    lemma_prod_split(s.skip(lo), hi - lo);
    assert(s.skip(lo).take(hi - lo) =~= s.subrange(lo, hi));
    assert forall|k: int| 0 <= k < s.take(lo).len() implies #[trigger] s.take(lo)[k] >= 1 by {}
    assert forall|k: int|
        0 <= k < s.skip(lo).skip(hi - lo).len() implies #[trigger] s.skip(lo).skip(hi - lo)[k]
            >= 1 by {}
    assert forall|k: int|
        0 <= k < s.subrange(lo, hi).len() implies #[trigger] s.subrange(lo, hi)[k] >= 1 by {}
    lemma_prod_all_pos(s.take(lo));
    lemma_prod_all_pos(s.skip(lo).skip(hi - lo));
    lemma_prod_all_pos(s.subrange(lo, hi));
    assert(1 <= shape_prod(s.subrange(lo, hi)) <= shape_prod(s)) by (nonlinear_arith)
        requires
            shape_prod(s) == shape_prod(s.take(lo)) * (shape_prod(s.subrange(lo, hi))
                * shape_prod(s.skip(lo).skip(hi - lo))),
            shape_prod(s.take(lo)) >= 1,
            shape_prod(s.skip(lo).skip(hi - lo)) >= 1,
            shape_prod(s.subrange(lo, hi)) >= 1,
    {}
}

/// The whole product written over the four groups of the fold: the axes
/// before `axis`, the axis itself, the axes after it, and the last axis.
pub proof fn lemma_fold_counts(s: Seq<usize>, axis: int)
    requires
        0 < axis,
        axis + 1 < s.len(),
    ensures
        shape_prod(s) == ((shape_prod(s.take(axis)) * s[axis]) * shape_prod(
            s.subrange(axis + 1, s.len() - 1),
        )) * s[s.len() - 1],
{
    let n = s.len() as int;
    lemma_prod_split(s, axis);
    assert(s.skip(axis).drop_first() =~= s.skip(axis + 1));
    assert(s.skip(axis)[0] == s[axis]);
    assert(shape_prod(s.skip(axis)) == s[axis] * shape_prod(s.skip(axis + 1)));
    lemma_prod_split(s.skip(axis + 1), n - 1 - (axis + 1));
    assert(s.skip(axis + 1).take(n - 1 - (axis + 1)) =~= s.subrange(axis + 1, n - 1));
    assert(s.skip(axis + 1).skip(n - 1 - (axis + 1)) =~= seq![s[n - 1]]);
    assert(seq![s[n - 1]].drop_first() =~= Seq::<usize>::empty());
    assert(shape_prod(Seq::<usize>::empty()) == 1);
    assert(shape_prod(seq![s[n - 1]]) == s[n - 1] * 1);
    let a = shape_prod(s.take(axis));
    let c = s[axis] as int;
    let b = shape_prod(s.subrange(axis + 1, n - 1));
    let p = s[n - 1] as int;
    assert(shape_prod(s) == ((a * c) * b) * p) by (nonlinear_arith)
        requires
            shape_prod(s) == a * shape_prod(s.skip(axis)),
            shape_prod(s.skip(axis)) == c * shape_prod(s.skip(axis + 1)),
            shape_prod(s.skip(axis + 1)) == b * p,
    {}
}

/// Folding an axis into the last one preserves the product of the shape.
pub proof fn lemma_folded_prod(s: Seq<usize>, axis: int)
    requires
        0 < axis,
        axis + 1 < s.len(),
        s[axis] * s[s.len() - 1] <= usize::MAX,
    ensures
        shape_prod(folded_shape(s, axis)) == shape_prod(s),
{
    let n = s.len() as int;
    let f = folded_shape(s, axis);
    let mid = s.take(axis) + s.subrange(axis + 1, n - 1);
    let cp = (s[axis] * s[n - 1]) as usize;
    assert(f =~= mid.push(cp));
    lemma_prod_push(mid, cp);
    lemma_prod_split(mid, axis);
    assert(mid.take(axis) =~= s.take(axis));
    assert(mid.skip(axis) =~= s.subrange(axis + 1, n - 1));
    lemma_fold_counts(s, axis);
    let a = shape_prod(s.take(axis));
    let c = s[axis] as int;
    let b = shape_prod(s.subrange(axis + 1, n - 1));
    let p = s[n - 1] as int;
    assert(shape_prod(f) == (a * b) * (c * p));
    assert((a * b) * (c * p) == ((a * c) * b) * p) by (nonlinear_arith);
}

} // verus!
