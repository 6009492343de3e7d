//! Blocks: one values array with its sample, component and property labels,
//! plus optional named gradient sub-blocks sharing the parent's component
//! and property schema.

use vstd::prelude::*;
use vstd::string::StringExecFns;
use crate::error::Error;
use crate::labels::{
    Labels, labels_sim, labels_equal, all_distinct, duplicate_labels, copy_names, concat_rows,
    lemma_concat_parts,
};
use crate::data::{ArrayData, folded_shape, fold_src, shape_prod, msg_fold_too_large};

verus! {

/// Message when the values array does not fit the given labels.
pub open spec fn msg_block_shape() -> Seq<char> {
    "the shape of the values array does not match the given labels"@
}

/// Message for a gradient parameter registered twice on one block.
pub open spec fn msg_gradient_exists(parameter: Seq<char>) -> Seq<char> {
    "gradient with respect to '"@ + parameter + "' already exists in this block"@
}

/// Message when a gradient's schema differs from its parent block's.
pub open spec fn msg_gradient_schema() -> Seq<char> {
    "gradient components and properties must match the block's own"@
}

/// Two component lists agree table by table.
pub open spec fn components_sim(a: Seq<Labels>, b: Seq<Labels>) -> bool {
    a.len() == b.len() && forall|j: int| 0 <= j < a.len() ==> labels_sim(#[trigger] a[j], b[j])
}

/// One values array together with the labels of each of its axes.
///
/// The array's first axis is indexed by `samples`, its last axis by
/// `properties`, and each middle axis by one entry of `components`.
#[derive(Debug, Clone)]
pub struct BasicBlock {
    values: ArrayData,
    samples: Labels,
    components: Vec<Labels>,
    properties: Labels,
}

impl BasicBlock {
    /// The values array.
    pub closed spec fn values_s(&self) -> ArrayData {
        self.values
    }

    /// The sample labels.
    pub closed spec fn samples_s(&self) -> Labels {
        self.samples
    }

    /// The component labels, one table per middle axis.
    pub closed spec fn components_s(&self) -> Seq<Labels> {
        self.components@
    }

    /// The property labels.
    pub closed spec fn properties_s(&self) -> Labels {
        self.properties
    }

    /// The values array fits the labels: one axis per table, each extent
    /// equal to the row count of its table.
    pub open spec fn shape_ok(
        values: ArrayData,
        samples: Labels,
        components: Seq<Labels>,
        properties: Labels,
    ) -> bool {
        &&& values.shape_v().len() == 2 + components.len()
        &&& values.shape_v()[0] == samples.count_v()
        &&& forall|j: int|
            0 <= j < components.len() ==> values.shape_v()[j + 1] == (
            #[trigger] components[j]).count_v()
        &&& values.shape_v()[values.shape_v().len() - 1] == properties.count_v()
    }

    /// Well-formedness: valid array and labels, and matching extents.
    pub open spec fn wf(&self) -> bool {
        &&& self.values_s().wf()
        &&& self.samples_s().wf()
        &&& forall|j: int|
            0 <= j < self.components_s().len() ==> (#[trigger] self.components_s()[j]).wf()
        &&& self.properties_s().wf()
        &&& Self::shape_ok(
            self.values_s(),
            self.samples_s(),
            self.components_s(),
            self.properties_s(),
        )
    }

    /// Build a block from its values array and axis labels.
    ///
    /// Fails when the array's rank or extents do not match the label
    /// tables.
    pub fn new(
        values: ArrayData,
        samples: Labels,
        components: Vec<Labels>,
        properties: Labels,
    ) -> (r: Result<BasicBlock, Error>)
        requires
            values.wf(),
            samples.wf(),
            forall|j: int| 0 <= j < components@.len() ==> (#[trigger] components@[j]).wf(),
            properties.wf(),
        ensures
            (r is Ok) <==> Self::shape_ok(values, samples, components@, properties),
            r matches Ok(b) ==> b.wf() && b.values_s() == values && b.samples_s() == samples
                && b.components_s() == components@ && b.properties_s() == properties,
            r matches Err(e) ==> e.text() == msg_block_shape(),
    {
        let rank = values.shape().len();
        if rank < 2 || rank - 2 != components.len() {
            return Err(Error::invalid_parameter(String::from_str(
                "the shape of the values array does not match the given labels",
            )));
        }
        if values.shape()[0] != samples.count() {
            return Err(Error::invalid_parameter(String::from_str(
                "the shape of the values array does not match the given labels",
            )));
        }
        let mut j: usize = 0;
        while j < components.len()
            invariant
                j <= components@.len(),
                values.shape_v().len() == 2 + components@.len(),
                forall|k: int|
                    0 <= k < j ==> values.shape_v()[k + 1] == (
                    #[trigger] components@[k]).count_v(),
            decreases components@.len() - j,
        {
            if values.shape()[j + 1] != components[j].count() {
                return Err(Error::invalid_parameter(String::from_str(
                    "the shape of the values array does not match the given labels",
                )));
            }
            j = j + 1;
        }
        if values.shape()[rank - 1] != properties.count() {
            return Err(Error::invalid_parameter(String::from_str(
                "the shape of the values array does not match the given labels",
            )));
        }
        Ok(BasicBlock { values, samples, components, properties })
    }

    /// The values array of this block.
    pub fn data(&self) -> (r: &ArrayData)
        ensures
            *r == self.values_s(),
    {
        &self.values
    }

    /// The sample labels of this block.
    pub fn samples(&self) -> (r: &Labels)
        ensures
            *r == self.samples_s(),
    {
        &self.samples
    }

    /// The component labels of this block.
    pub fn components(&self) -> (r: &Vec<Labels>)
        ensures
            r@ == self.components_s(),
    {
        &self.components
    }

    /// The property labels of this block.
    pub fn properties(&self) -> (r: &Labels)
        ensures
            *r == self.properties_s(),
    {
        &self.properties
    }
}


/// What one fold of a component axis into the property axis does to a
/// block: the axis's table is removed from the components, each new
/// property row is one of its rows followed by an old property row (axis
/// index slow, old property index fast), and the values array is folded
/// accordingly.
pub open spec fn fold_rel(b: BasicBlock, nb: BasicBlock, ci: int) -> bool {
    let comp = b.components_s()[ci];
    let props = b.properties_s();
    let cc = comp.count_v();
    let pc = props.count_v();
    &&& labels_sim(nb.samples_s(), b.samples_s())
    &&& nb.components_s().len() == b.components_s().len() - 1
    &&& (forall|j: int|
        0 <= j < ci ==> labels_sim(#[trigger] nb.components_s()[j], b.components_s()[j]))
    &&& (forall|j: int|
        ci <= j < nb.components_s().len() ==> labels_sim(
            #[trigger] nb.components_s()[j],
            b.components_s()[j + 1],
        ))
    &&& nb.properties_s().names_v() == comp.names_v() + props.names_v()
    &&& nb.properties_s().count_v() == cc * pc
    &&& (forall|q: int|
        0 <= q < cc * pc ==> #[trigger] nb.properties_s().rows_v()[q] == comp.rows_v()[q / pc]
            + props.rows_v()[q % pc])
    &&& nb.values_s().shape_v() == folded_shape(b.values_s().shape_v(), ci + 1)
    &&& nb.values_s().data_v().len() == b.values_s().data_v().len()
    &&& (forall|i: int|
        0 <= i < nb.values_s().data_v().len() ==> #[trigger] nb.values_s().data_v()[i]
            == b.values_s().data_v()[fold_src(
            i,
            shape_prod(
                b.values_s().shape_v().subrange(ci + 2, b.values_s().shape_v().len() - 1),
            ),
            cc,
            pc,
        )])
}

/// Fold component axis `ci` of a block into its property axis.
pub(crate) fn fold_component(b: &BasicBlock, ci: usize) -> (r: BasicBlock)
    requires
        b.wf(),
        ci < b.components_s().len(),
        b.components_s()[ci as int].count_v() * b.properties_s().count_v() <= usize::MAX,
        forall|x: int, y: int|
            0 <= x < b.components_s()[ci as int].names_v().len() && 0 <= y
                < b.properties_s().names_v().len() ==> b.components_s()[ci as int].names_v()[x]
                != b.properties_s().names_v()[y],
    ensures
        r.wf(),
        fold_rel(*b, r, ci as int),
{
    let ghost comp_g = b.components_s()[ci as int];
    let ghost props_g = b.properties_s();
    let comp = &b.components()[ci];
    let props = b.properties();
    let cc = comp.count();
    let pcnt = props.count();
    let cp = cc * pcnt;

    // new property names: the axis's names, then the old property names
    let mut names2 = copy_names(comp.names());
    let tail = copy_names(props.names());
    proof {
        assert(names2.deep_view() =~= comp_g.names_v() + props_g.names_v().take(0));
    }
    let mut t: usize = 0;
    while t < tail.len()
        invariant
            t <= tail@.len(),
            tail.deep_view() == props_g.names_v(),
            names2@.len() == comp_g.names_v().len() + t,
            names2.deep_view() == comp_g.names_v() + props_g.names_v().take(t as int),
        decreases tail@.len() - t,
    {
        let ghost cn = comp_g.names_v().len() as int;
        let ghost prevdv = names2.deep_view();
        names2.push(tail[t].clone());
        proof {
            assert(names2@.len() == cn + t + 1);
            assert(names2@[cn + t] == tail@[t as int]);
            assert(names2@[cn + t]@ == tail.deep_view()[t as int]);
            assert(names2.deep_view()[cn + t] == props_g.names_v()[t as int]);
            assert forall|k: int| 0 <= k < cn + t implies #[trigger] names2.deep_view()[k]
                == prevdv[k] by {
                assert(names2@[k] == names2@.subrange(0, cn + t)[k]);
            }
            assert(names2.deep_view() =~= comp_g.names_v() + props_g.names_v().take(
                t as int + 1,
            ));
        }
        t = t + 1;
    }
    proof {
        assert(props_g.names_v().take(props_g.names_v().len() as int) =~= props_g.names_v());
        assert(names2.deep_view() == comp_g.names_v() + props_g.names_v());
        assert forall|x: int, y: int|
            0 <= x < names2.deep_view().len() && 0 <= y < names2.deep_view().len() && x
                != y implies names2.deep_view()[x] != names2.deep_view()[y] by {
            let cn = comp_g.names_v().len() as int;
            if x < cn && y < cn {
                assert(comp_g.names_v()[x] != comp_g.names_v()[y]);
            } else if x >= cn && y >= cn {
                assert(props_g.names_v()[x - cn] != props_g.names_v()[y - cn]);
            }
        }
    }

    // new property rows: cartesian product, axis row first
    let mut entries2: Vec<Vec<i32>> = Vec::new();
    let mut ci2: usize = 0;
    while ci2 < cc
        invariant
            ci2 <= cc,
            cc == comp_g.count_v(),
            pcnt == props_g.count_v(),
            cp == cc * pcnt,
            comp_g == b.components_s()[ci as int],
            props_g == b.properties_s(),
            *comp == comp_g,
            *props == props_g,
            ci < b.components_s().len(),
            b.wf(),
            entries2.deep_view().len() == ci2 * pcnt,
            forall|q: int|
                0 <= q < ci2 * pcnt ==> #[trigger] entries2.deep_view()[q]
                    == comp_g.rows_v()[q / (pcnt as int)] + props_g.rows_v()[q % (pcnt as int)],
        decreases cc - ci2,
    {
        let comp_row = comp.entry(ci2);
        let mut pi: usize = 0;
        while pi < pcnt
            invariant
                pi <= pcnt,
                ci2 < cc,
                cc == comp_g.count_v(),
                pcnt == props_g.count_v(),
                cp == cc * pcnt,
                comp_g == b.components_s()[ci as int],
                props_g == b.properties_s(),
                *comp == comp_g,
                *props == props_g,
                ci < b.components_s().len(),
                b.wf(),
                comp_row.deep_view() == comp_g.rows_v()[ci2 as int],
                entries2.deep_view().len() == ci2 * pcnt + pi,
                forall|q: int|
                    0 <= q < ci2 * pcnt + pi ==> #[trigger] entries2.deep_view()[q]
                        == comp_g.rows_v()[q / (pcnt as int)] + props_g.rows_v()[q % (
                        pcnt as int)],
            decreases pcnt - pi,
        {
            proof {
                assert(ci2 * pcnt + pi < cp) by (nonlinear_arith)
                    requires
                        ci2 < cc,
                        pi < pcnt,
                        cp == cc * pcnt,
                        0 <= ci2,
                        0 <= pi,
                {}
            }
            let ghost rowv = comp_g.rows_v()[ci2 as int] + props_g.rows_v()[pi as int];
            let row = concat_rows(comp_row, props.entry(pi));
            proof {
                assert(row.deep_view() == rowv);
            }
            let ghost prevdv = entries2.deep_view();
            entries2.push(row);
            proof {
                assert forall|q2: int| 0 <= q2 < prevdv.len() implies #[trigger] entries2.deep_view()[
                q2] == prevdv[q2] by {
                    assert(entries2@[q2] == entries2@.subrange(0, prevdv.len() as int)[q2]);
                }
                let q = ci2 as int * pcnt as int + pi as int;
                vstd::arithmetic::div_mod::lemma_fundamental_div_mod_converse(
                    q,
                    pcnt as int,
                    ci2 as int,
                    pi as int,
                );
                assert(q / (pcnt as int) == ci2 as int && q % (pcnt as int) == pi as int);
                assert(entries2@.len() == q + 1);
                assert(entries2@[q] == row);
                assert(entries2.deep_view()[q] == rowv);
            }
            pi = pi + 1;
        }
        proof {
            assert(ci2 * pcnt + pcnt == (ci2 + 1) * pcnt) by (nonlinear_arith);
        }
        ci2 = ci2 + 1;
    }
    proof {
        // rows are pairwise distinct: distinct pairs of source rows
        assert forall|q1: int, q2: int|
            0 <= q1 < entries2.deep_view().len() && 0 <= q2 < entries2.deep_view().len() && q1
                != q2 implies entries2.deep_view()[q1] != entries2.deep_view()[q2] by {
            let pcw = pcnt as int;
            vstd::arithmetic::div_mod::lemma_fundamental_div_mod(q1, pcw);
            vstd::arithmetic::div_mod::lemma_fundamental_div_mod(q2, pcw);
            vstd::arithmetic::div_mod::lemma_mod_division_less_than_divisor(q1, pcw);
            vstd::arithmetic::div_mod::lemma_mod_division_less_than_divisor(q2, pcw);
            vstd::arithmetic::div_mod::lemma_div_pos_is_pos(q1, pcw);
            vstd::arithmetic::div_mod::lemma_div_pos_is_pos(q2, pcw);
            assert(q1 / pcw < cc && q2 / pcw < cc) by (nonlinear_arith)
                requires
                    q1 < cc * pcw,
                    q2 < cc * pcw,
                    q1 == pcw * (q1 / pcw) + q1 % pcw,
                    q2 == pcw * (q2 / pcw) + q2 % pcw,
                    0 <= q1 % pcw < pcw,
                    0 <= q2 % pcw < pcw,
                    0 <= q1 / pcw,
                    0 <= q2 / pcw,
            {}
            if entries2.deep_view()[q1] == entries2.deep_view()[q2] {
                lemma_concat_parts(
                    comp_g.rows_v()[q1 / pcw],
                    props_g.rows_v()[q1 % pcw],
                    comp_g.rows_v()[q2 / pcw],
                    props_g.rows_v()[q2 % pcw],
                );
                assert(q1 / pcw == q2 / pcw && q1 % pcw == q2 % pcw);
                assert(q1 == q2) by (nonlinear_arith)
                    requires
                        q1 == pcw * (q1 / pcw) + q1 % pcw,
                        q2 == pcw * (q2 / pcw) + q2 % pcw,
                        q1 / pcw == q2 / pcw,
                        q1 % pcw == q2 % pcw,
                {}
            }
        }
        assert forall|q: int|
            0 <= q < entries2.deep_view().len() implies (#[trigger] entries2.deep_view()[
        q]).len() == names2.deep_view().len() by {
            vstd::arithmetic::div_mod::lemma_fundamental_div_mod(q, pcnt as int);
            vstd::arithmetic::div_mod::lemma_mod_division_less_than_divisor(q, pcnt as int);
            vstd::arithmetic::div_mod::lemma_div_pos_is_pos(q, pcnt as int);
            assert(q / (pcnt as int) < cc) by (nonlinear_arith)
                requires
                    q < cc * (pcnt as int),
                    q == (pcnt as int) * (q / (pcnt as int)) + q % (pcnt as int),
                    0 <= q % (pcnt as int) < (pcnt as int),
                    0 <= q / (pcnt as int),
            {}
        }
    }
    let props2 = Labels::from_parts(names2, entries2);
    let ncomp = b.components().len();

    // fold the values array
    let values2 = match b.data().fold_axis(ci + 1) {
        Ok(v) => v,
        Err(_) => {
            proof {
                assert(b.values_s().shape_v()[ci as int + 1] == comp_g.count_v());
                assert(b.values_s().shape_v()[b.values_s().shape_v().len() - 1]
                    == props_g.count_v());
                assert(false);
            }
            vstd::pervasive::unreached()
        },
    };

    // remaining components and copied samples
    let mut comps2: Vec<Labels> = Vec::new();
    let mut j: usize = 0;
    while j < ncomp
        invariant
            j <= ncomp,
            ci < ncomp,
            ncomp == b.components_s().len(),
            b.wf(),
            j <= ci ==> comps2@.len() == j,
            j > ci ==> comps2@.len() == j - 1,
            forall|k: int|
                0 <= k < ci && k < j ==> (#[trigger] comps2@[k]).wf() && labels_sim(
                    comps2@[k],
                    b.components_s()[k],
                ),
            forall|k: int|
                ci <= k < comps2@.len() ==> (#[trigger] comps2@[k]).wf() && labels_sim(
                    comps2@[k],
                    b.components_s()[k + 1],
                ),
        decreases ncomp - j,
    {
        if j != ci {
            comps2.push(duplicate_labels(&b.components()[j]));
        }
        j = j + 1;
    }
    let samples2 = duplicate_labels(b.samples());

    let out = BasicBlock { values: values2, samples: samples2, components: comps2, properties: props2 };
    proof {
        let sv = b.values_s().shape_v();
        let fs = folded_shape(sv, ci as int + 1);
        assert(out.values_s().shape_v() == fs);
        assert(fs.len() == sv.len() - 1);
        assert(fs[0] == sv[0]);
        assert forall|k: int|
            0 <= k < out.components_s().len() implies fs[k + 1] == (
        #[trigger] out.components_s()[k]).count_v() by {
            if k < ci {
                assert(fs[k + 1] == sv[k + 1]);
            } else if k + 1 < fs.len() - 1 {
                assert(fs[k + 1] == sv[k + 2]);
            }
        }
        assert(fs[fs.len() - 1] == (cp as int));
    }
    out
}


/// Message for a variable found in no component axis of a block.
pub open spec fn msg_unknown_component(name: Seq<char>) -> Seq<char> {
    "'"@ + name + "' is not part of the components of this block"@
}

/// Message for a move that would take only part of a component axis.
pub open spec fn msg_partial_component(name: Seq<char>) -> Seq<char> {
    "moving a component axis to the properties requires all its columns, '"@ + name
        + "' is missing from the list"@
}

/// Message for a move that would duplicate a property column name.
pub open spec fn msg_name_collision(name: Seq<char>) -> Seq<char> {
    "moving the components to the properties would duplicate the column named '"@ + name
        + "'"@
}

/// `name` occurs in `list`.
pub open spec fn name_in_list(name: Seq<char>, list: Seq<Seq<char>>) -> bool {
    exists|v: int| 0 <= v < list.len() && list[v] == name
}

/// Whether one fold step of axis `ci` succeeds on a block: the merged
/// property count fits in memory and no property column name is duplicated.
pub open spec fn step_ok(b: BasicBlock, ci: int) -> bool {
    &&& b.components_s()[ci].count_v() * b.properties_s().count_v() <= usize::MAX
    &&& forall|x: int, y: int|
        0 <= x < b.components_s()[ci].names_v().len() && 0 <= y
            < b.properties_s().names_v().len() ==> b.components_s()[ci].names_v()[x]
            != b.properties_s().names_v()[y]
}

/// Check one name list against another for a shared name.
fn find_collision(a: &Vec<String>, b: &Vec<String>) -> (r: Option<usize>)
    ensures
        r matches Some(x) ==> 0 <= x < a.deep_view().len() && name_in_list(
            a.deep_view()[x as int],
            b.deep_view(),
        ),
        r is None ==> forall|x: int, y: int|
            0 <= x < a.deep_view().len() && 0 <= y < b.deep_view().len()
                ==> a.deep_view()[x] != b.deep_view()[y],
{
    let mut x: usize = 0;
    while x < a.len()
        invariant
            x <= a@.len(),
            forall|k: int, y: int|
                0 <= k < x && 0 <= y < b.deep_view().len() ==> a.deep_view()[k]
                    != b.deep_view()[y],
        decreases a@.len() - x,
    {
        let mut y: usize = 0;
        while y < b.len()
            invariant
                y <= b@.len(),
                x < a@.len(),
                forall|k: int| 0 <= k < y ==> a.deep_view()[x as int] != b.deep_view()[k],
            decreases b@.len() - y,
        {
            if a[x] == b[y] {
                proof {
                    assert(a.deep_view()[x as int] == b.deep_view()[y as int]);
                }
                return Some(x);
            }
            y = y + 1;
        }
        x = x + 1;
    }
    None
}

/// Whether `target` occurs in `names`.
fn contains_name(names: &Vec<String>, target: &String) -> (r: bool)
    ensures
        r <==> name_in_list(target@, names.deep_view()),
{
    let mut v: usize = 0;
    while v < names.len()
        invariant
            v <= names@.len(),
            forall|k: int| 0 <= k < v ==> names.deep_view()[k] != target@,
        decreases names@.len() - v,
    {
        if names[v] == *target {
            proof {
                assert(names.deep_view()[v as int] == target@);
            }
            return true;
        }
        v = v + 1;
    }
    false
}

/// Apply one fold step, axis `ci`, to a block's values and to each of its
/// gradients in lockstep.
pub(crate) fn fold_block_step(tb: &TensorBlock, ci: usize) -> (r: Result<TensorBlock, Error>)
    requires
        tb.wf(),
        ci < tb.values_s().components_s().len(),
    ensures
        (r is Ok) <==> step_ok(tb.values_s(), ci as int),
        r matches Ok(nb) ==> {
            &&& nb.wf()
            &&& fold_rel(tb.values_s(), nb.values_s(), ci as int)
            &&& nb.gradients_s().len() == tb.gradients_s().len()
            &&& forall|g: int|
                0 <= g < nb.gradients_s().len() ==> (#[trigger] nb.gradients_s()[g]).0@
                    == tb.gradients_s()[g].0@ && fold_rel(
                    tb.gradients_s()[g].1,
                    nb.gradients_s()[g].1,
                    ci as int,
                )
        },
        r matches Err(e) ==> (e.text() == msg_fold_too_large() || exists|x: int|
            0 <= x < tb.values_s().components_s()[ci as int].names_v().len() && e.text()
                == msg_name_collision(
                tb.values_s().components_s()[ci as int].names_v()[x],
            )),
    {
    let bb = tb.values();
    let comp = &bb.components()[ci];
    let props = bb.properties();
    match comp.count().checked_mul(props.count()) {
        Some(_) => {},
        None => {
            return Err(Error::invalid_parameter(String::from_str(
                "the merged property axis is too large",
            )));
        },
    }
    match find_collision(comp.names(), props.names()) {
        Some(x) => {
            let mut m = String::from_str(
                "moving the components to the properties would duplicate the column named '",
            );
            m.append(comp.names()[x].as_str());
            m.append("'");
            proof {
                assert(m@ =~= msg_name_collision(
                    tb.values_s().components_s()[ci as int].names_v()[x as int],
                ));
                let nm = tb.values_s().components_s()[ci as int].names_v()[x as int];
                let pn = tb.values_s().properties_s().names_v();
                assert(name_in_list(nm, pn));
                let y = choose|y: int| 0 <= y < pn.len() && pn[y] == nm;
                assert(!step_ok(tb.values_s(), ci as int));
            }
            return Err(Error::invalid_parameter(m));
        },
        None => {},
    }
    let new_values = fold_component(bb, ci);
    let mut new_gradients: Vec<(String, BasicBlock)> = Vec::new();
    let ngrad = tb.gradients().len();
    let mut g: usize = 0;
    while g < ngrad
        invariant
            g <= ngrad,
            ngrad == tb.gradients_s().len(),
            tb.wf(),
            ci < tb.values_s().components_s().len(),
            step_ok(tb.values_s(), ci as int),
            new_gradients@.len() == g,
            forall|k: int|
                0 <= k < g ==> (#[trigger] new_gradients@[k]).0@ == tb.gradients_s()[k].0@
                    && new_gradients@[k].1.wf() && fold_rel(
                    tb.gradients_s()[k].1,
                    new_gradients@[k].1,
                    ci as int,
                ),
        decreases ngrad - g,
    {
        let gb = &tb.gradients()[g].1;
        proof {
            assert(components_sim(gb.components_s(), tb.values_s().components_s()));
            assert(labels_sim(
                gb.components_s()[ci as int],
                tb.values_s().components_s()[ci as int],
            ));
            assert(labels_sim(gb.properties_s(), tb.values_s().properties_s()));
        }
        let folded = fold_component(gb, ci);
        let name = tb.gradients()[g].0.clone();
        new_gradients.push((name, folded));
        g = g + 1;
    }
    let out = TensorBlock { values: new_values, gradients: new_gradients };
    proof {
        let vs = tb.values_s();
        let nvs = out.values_s();
        assert forall|k: int| 0 <= k < out.gradients_s().len() implies components_sim(
            (#[trigger] out.gradients_s()[k]).1.components_s(),
            nvs.components_s(),
        ) && labels_sim(out.gradients_s()[k].1.properties_s(), nvs.properties_s()) by {
            let og = tb.gradients_s()[k].1;
            let ng = out.gradients_s()[k].1;
            assert(fold_rel(og, ng, ci as int));
            assert(fold_rel(vs, nvs, ci as int));
            assert(components_sim(og.components_s(), vs.components_s()));
            assert forall|j: int| 0 <= j < ng.components_s().len() implies labels_sim(
                #[trigger] ng.components_s()[j],
                nvs.components_s()[j],
            ) by {
                if j < ci {
                    assert(labels_sim(ng.components_s()[j], og.components_s()[j]));
                    assert(labels_sim(og.components_s()[j], vs.components_s()[j]));
                    assert(labels_sim(nvs.components_s()[j], vs.components_s()[j]));
                } else {
                    assert(labels_sim(ng.components_s()[j], og.components_s()[j + 1]));
                    assert(labels_sim(og.components_s()[j + 1], vs.components_s()[j + 1]));
                    assert(labels_sim(nvs.components_s()[j], vs.components_s()[j + 1]));
                }
            }
            assert(labels_sim(og.properties_s(), vs.properties_s()));
            assert(ng.properties_s().names_v() == nvs.properties_s().names_v());
            assert forall|q: int|
                0 <= q < ng.properties_s().rows_v().len() implies #[trigger] ng.properties_s().rows_v()[
            q] == nvs.properties_s().rows_v()[q] by {}
            assert(ng.properties_s().rows_v() =~= nvs.properties_s().rows_v());
        }
    }
    Ok(out)
}



/// One fold step is deterministic: two results of folding the same axis of
/// the same block agree on every table and on every element of the values
/// array. Applying the reshape twice to equal inputs therefore yields
/// equal outputs.
pub proof fn lemma_fold_step_deterministic(
    b: BasicBlock,
    nb1: BasicBlock,
    nb2: BasicBlock,
    ci: int,
)
    requires
        fold_rel(b, nb1, ci),
        fold_rel(b, nb2, ci),
        0 <= ci < b.components_s().len(),
    ensures
        labels_sim(nb1.samples_s(), nb2.samples_s()),
        nb1.components_s().len() == nb2.components_s().len(),
        forall|j: int|
            0 <= j < nb1.components_s().len() ==> labels_sim(
                #[trigger] nb1.components_s()[j],
                nb2.components_s()[j],
            ),
        nb1.properties_s().names_v() == nb2.properties_s().names_v(),
        nb1.properties_s().rows_v() == nb2.properties_s().rows_v(),
        nb1.values_s().shape_v() == nb2.values_s().shape_v(),
        nb1.values_s().data_v() == nb2.values_s().data_v(),
{
    let cc = b.components_s()[ci].count_v();
    let pc = b.properties_s().count_v();
    assert forall|q: int|
        0 <= q < nb1.properties_s().rows_v().len() implies #[trigger] nb1.properties_s().rows_v()[
    q] == nb2.properties_s().rows_v()[q] by {
        assert(0 <= q < cc * pc);
    }
    assert(nb1.properties_s().rows_v() =~= nb2.properties_s().rows_v());
    assert forall|i: int|
        0 <= i < nb1.values_s().data_v().len() implies #[trigger] nb1.values_s().data_v()[i]
            == nb2.values_s().data_v()[i] by {}
    assert(nb1.values_s().data_v() =~= nb2.values_s().data_v());
}

/// Axis `j` of the block holds at least one of the given column names.
pub open spec fn axis_marked(b: BasicBlock, j: int, vars: Seq<Seq<char>>) -> bool {
    exists|x: int|
        0 <= x < b.components_s()[j].names_v().len() && name_in_list(
            #[trigger] b.components_s()[j].names_v()[x],
            vars,
        )
}

/// Every column name of axis `j` is among the given names.
pub open spec fn axis_whole(b: BasicBlock, j: int, vars: Seq<Seq<char>>) -> bool {
    forall|x: int|
        0 <= x < b.components_s()[j].names_v().len() ==> name_in_list(
            #[trigger] b.components_s()[j].names_v()[x],
            vars,
        )
}

/// Some component axis of the block holds the given column name.
pub open spec fn var_resolvable(b: BasicBlock, name: Seq<char>) -> bool {
    exists|j: int|
        0 <= j < b.components_s().len() && name_in_list(
            name,
            (#[trigger] b.components_s()[j]).names_v(),
        )
}

/// The marked axes of the block with index at least `j`, largest first.
pub open spec fn marked_axes_from(b: BasicBlock, vars: Seq<Seq<char>>, j: int) -> Seq<int>
    decreases b.components_s().len() - j,
{
    if j < 0 || j >= b.components_s().len() {
        Seq::empty()
    } else {
        marked_axes_from(b, vars, j + 1) + (if axis_marked(b, j, vars) {
            seq![j]
        } else {
            Seq::empty()
        })
    }
}

pub proof fn lemma_marked_nonempty(b: BasicBlock, vars: Seq<Seq<char>>, j: int, i: int)
    requires
        0 <= i <= j < b.components_s().len(),
        axis_marked(b, j, vars),
    ensures
        marked_axes_from(b, vars, i).len() > 0,
    decreases j - i,
{
    if i == j {
        assert(marked_axes_from(b, vars, j) == marked_axes_from(b, vars, j + 1)
            + seq![j]);
    } else {
        lemma_marked_nonempty(b, vars, j, i + 1);
    }
}

/// The fold conditions along a list of axes, threading the property names
/// and count that each step leaves for the next.
pub open spec fn steps_ok(
    b: BasicBlock,
    axes: Seq<int>,
    pnames: Seq<Seq<char>>,
    pcount: int,
) -> bool
    decreases axes.len(),
{
    if axes.len() == 0 {
        true
    } else {
        let c = b.components_s()[axes[0]];
        &&& c.count_v() * pcount <= usize::MAX
        &&& (forall|x: int, y: int|
            0 <= x < c.names_v().len() && 0 <= y < pnames.len() ==> c.names_v()[x]
                != pnames[y])
        &&& steps_ok(b, axes.drop_first(), c.names_v() + pnames, c.count_v() * pcount)
    }
}

/// The whole component-to-property move succeeds on a block: every given
/// name occurs in some component axis, marked axes are moved whole, and
/// each fold step fits and collides with no property name.
pub open spec fn ctp_ok(b: BasicBlock, vars: Seq<Seq<char>>) -> bool {
    &&& forall|v: int| 0 <= v < vars.len() ==> var_resolvable(b, #[trigger] vars[v])
    &&& forall|j: int|
        0 <= j < b.components_s().len() && axis_marked(b, j, vars) ==> axis_whole(b, j, vars)
    &&& steps_ok(
        b,
        marked_axes_from(b, vars, 0),
        b.properties_s().names_v(),
        b.properties_s().count_v(),
    )
}

/// The block `nb` is `b` with the given axes folded into the properties,
/// one after the other, `mids` listing the result of each step.
pub open spec fn fold_chain_with(
    b: BasicBlock,
    nb: BasicBlock,
    axes: Seq<int>,
    mids: Seq<BasicBlock>,
) -> bool
    decreases axes.len(),
{
    if axes.len() == 0 {
        nb == b && mids.len() == 0
    } else {
        &&& mids.len() == axes.len()
        &&& fold_rel(b, mids[0], axes[0])
        &&& fold_chain_with(mids[0], nb, axes.drop_first(), mids.drop_first())
    }
}

/// The block `nb` is `b` with the given axes folded into the properties,
/// one after the other.
pub open spec fn fold_chain(b: BasicBlock, nb: BasicBlock, axes: Seq<int>) -> bool {
    exists|mids: Seq<BasicBlock>| fold_chain_with(b, nb, axes, mids)
}

pub proof fn lemma_fold_chain_snoc(
    b: BasicBlock,
    mid: BasicBlock,
    nb: BasicBlock,
    axes: Seq<int>,
    mids: Seq<BasicBlock>,
    a: int,
)
    requires
        fold_chain_with(b, mid, axes, mids),
        fold_rel(mid, nb, a),
    ensures
        fold_chain_with(b, nb, axes.push(a), mids.push(nb)),
    decreases axes.len(),
{
    if axes.len() == 0 {
        assert(mid == b);
        assert(axes.push(a).drop_first() =~= Seq::<int>::empty());
        assert(mids.push(nb).drop_first() =~= Seq::<BasicBlock>::empty());
        assert(mids.push(nb)[0] == nb);
        assert(fold_chain_with(
            nb,
            nb,
            axes.push(a).drop_first(),
            mids.push(nb).drop_first(),
        ));
    } else {
        lemma_fold_chain_snoc(mids[0], mid, nb, axes.drop_first(), mids.drop_first(), a);
        assert(axes.push(a).drop_first() =~= axes.drop_first().push(a));
        assert(mids.push(nb).drop_first() =~= mids.drop_first().push(nb));
        assert(mids.push(nb)[0] == mids[0]);
        assert(axes.push(a)[0] == axes[0]);
    }
}


/// Two blocks carry the same axis names, table by table: same sample
/// names, same component names per axis, same property names.
pub open spec fn same_axis_names(a: BasicBlock, b: BasicBlock) -> bool {
    &&& a.samples_s().names_v() == b.samples_s().names_v()
    &&& a.components_s().len() == b.components_s().len()
    &&& (forall|j: int|
        0 <= j < a.components_s().len() ==> (#[trigger] a.components_s()[j]).names_v()
            == b.components_s()[j].names_v())
    &&& a.properties_s().names_v() == b.properties_s().names_v()
}

/// One fold step applied to two blocks with the same axis names yields two
/// blocks with the same axis names.
pub proof fn lemma_fold_rel_same_names(
    a: BasicBlock,
    na: BasicBlock,
    b: BasicBlock,
    nb: BasicBlock,
    ci: int,
)
    requires
        fold_rel(a, na, ci),
        fold_rel(b, nb, ci),
        same_axis_names(a, b),
        0 <= ci < a.components_s().len(),
    ensures
        same_axis_names(na, nb),
{
    assert forall|j: int|
        0 <= j < na.components_s().len() implies (#[trigger] na.components_s()[j]).names_v()
            == nb.components_s()[j].names_v() by {
        if j < ci {
            assert(labels_sim(na.components_s()[j], a.components_s()[j]));
            assert(labels_sim(nb.components_s()[j], b.components_s()[j]));
        } else {
            assert(labels_sim(na.components_s()[j], a.components_s()[j + 1]));
            assert(labels_sim(nb.components_s()[j], b.components_s()[j + 1]));
        }
    }
    assert(na.properties_s().names_v() == a.components_s()[ci].names_v()
        + a.properties_s().names_v());
    assert(nb.properties_s().names_v() == b.components_s()[ci].names_v()
        + b.properties_s().names_v());
}

/// Positions that strictly descend and stay below `n` are below `n` minus
/// their offset.
pub proof fn lemma_desc_axes_bound(axes: Seq<int>, n: int, k: int)
    requires
        0 <= k < axes.len(),
        forall|i: int| 0 <= i < axes.len() ==> 0 <= #[trigger] axes[i] < n,
        forall|k1: int, k2: int| 0 <= k1 < k2 < axes.len() ==> axes[k1] > axes[k2],
    ensures
        axes[k] < n - k,
    decreases k,
{
    if k > 0 {
        lemma_desc_axes_bound(axes, n, k - 1);
        assert(axes[k] < axes[k - 1]);
    }
}

/// A fold chain applied to two blocks with the same axis names yields two
/// blocks with the same axis names.
pub proof fn lemma_chain_same_names(
    a: BasicBlock,
    na: BasicBlock,
    b: BasicBlock,
    nb: BasicBlock,
    axes: Seq<int>,
    mids_a: Seq<BasicBlock>,
    mids_b: Seq<BasicBlock>,
)
    requires
        fold_chain_with(a, na, axes, mids_a),
        fold_chain_with(b, nb, axes, mids_b),
        same_axis_names(a, b),
        forall|k: int| 0 <= k < axes.len() ==> 0 <= #[trigger] axes[k] < a.components_s().len() - k,
    ensures
        same_axis_names(na, nb),
    decreases axes.len(),
{
    if axes.len() == 0 {
        assert(na == a && nb == b);
    } else {
        lemma_fold_rel_same_names(a, mids_a[0], b, mids_b[0], axes[0]);
        assert forall|k: int|
            0 <= k < axes.drop_first().len() implies 0 <= #[trigger] axes.drop_first()[k]
                < mids_a[0].components_s().len() - k by {
            assert(axes.drop_first()[k] == axes[k + 1]);
            assert(mids_a[0].components_s().len() == a.components_s().len() - 1);
        }
        lemma_chain_same_names(
            mids_a[0],
            na,
            mids_b[0],
            nb,
            axes.drop_first(),
            mids_a.drop_first(),
            mids_b.drop_first(),
        );
    }
}

/// The marked axes of a block depend only on its component names.
pub proof fn lemma_marked_axes_same_names(
    a: BasicBlock,
    b: BasicBlock,
    vars: Seq<Seq<char>>,
    j: int,
)
    requires
        a.components_s().len() == b.components_s().len(),
        forall|i: int|
            0 <= i < a.components_s().len() ==> (#[trigger] a.components_s()[i]).names_v()
                == b.components_s()[i].names_v(),
    ensures
        marked_axes_from(a, vars, j) == marked_axes_from(b, vars, j),
    decreases a.components_s().len() - j,
{
    if 0 <= j && j < a.components_s().len() {
        lemma_marked_axes_same_names(a, b, vars, j + 1);
        assert(axis_marked(a, j, vars) <==> axis_marked(b, j, vars));
    }
}

/// The marked axes are valid component positions, strictly descending, at
/// least `j`.
pub proof fn lemma_marked_axes_props(b: BasicBlock, vars: Seq<Seq<char>>, j: int)
    ensures
        forall|k: int|
            0 <= k < marked_axes_from(b, vars, j).len() ==> j <= #[trigger] marked_axes_from(
                b,
                vars,
                j,
            )[k] < b.components_s().len(),
        forall|k1: int, k2: int|
            0 <= k1 < k2 < marked_axes_from(b, vars, j).len() ==> marked_axes_from(
                b,
                vars,
                j,
            )[k1] > marked_axes_from(b, vars, j)[k2],
    decreases b.components_s().len() - j,
{
    if 0 <= j && j < b.components_s().len() {
        lemma_marked_axes_props(b, vars, j + 1);
        let rest = marked_axes_from(b, vars, j + 1);
        let whole = marked_axes_from(b, vars, j);
        assert forall|k: int|
            0 <= k < whole.len() implies j <= #[trigger] whole[k]
                < b.components_s().len() by {
            if k < rest.len() {
                assert(whole[k] == rest[k]);
            }
        }
        assert forall|k1: int, k2: int|
            0 <= k1 < k2 < whole.len() implies whole[k1] > whole[k2] by {
            if k2 < rest.len() {
                assert(whole[k1] == rest[k1] && whole[k2] == rest[k2]);
            } else {
                assert(whole[k1] == rest[k1]);
                assert(j + 1 <= rest[k1]);
            }
        }
    }
}

/// Every requested name occurs in some component axis of the block.
pub open spec fn all_resolvable(b: BasicBlock, vars: Seq<Seq<char>>) -> bool {
    forall|v: int| 0 <= v < vars.len() ==> var_resolvable(b, #[trigger] vars[v])
}

/// Every marked axis of the block is moved whole.
pub open spec fn marked_whole(b: BasicBlock, vars: Seq<Seq<char>>) -> bool {
    forall|j: int|
        0 <= j < b.components_s().len() && #[trigger] axis_marked(b, j, vars) ==> axis_whole(
            b,
            j,
            vars,
        )
}

/// Holds when an error with this text is one that the component move
/// reports for this block and these names: the first unresolvable name,
/// or (all names resolving) a column left behind on a marked axis, or
/// (the names also covering whole axes) a fold step that overflows or
/// collides with a property column name.
pub open spec fn ctp_err(b: TensorBlock, vars: Seq<Seq<char>>, text: Seq<char>) -> bool {
    ||| (exists|v: int|
        0 <= v < vars.len() && (forall|w: int|
            0 <= w < v ==> var_resolvable(b.values_s(), #[trigger] vars[w]))
            && !var_resolvable(b.values_s(), vars[v]) && text == msg_unknown_component(
            vars[v],
        ))
    ||| (all_resolvable(b.values_s(), vars) && exists|j: int, x: int|
        0 <= j < b.values_s().components_s().len() && axis_marked(b.values_s(), j, vars) && 0
            <= x < b.values_s().components_s()[j].names_v().len() && !name_in_list(
            b.values_s().components_s()[j].names_v()[x],
            vars,
        ) && text == msg_partial_component(b.values_s().components_s()[j].names_v()[x]))
    ||| (all_resolvable(b.values_s(), vars) && marked_whole(b.values_s(), vars) && !steps_ok(
        b.values_s(),
        marked_axes_from(b.values_s(), vars, 0),
        b.values_s().properties_s().names_v(),
        b.values_s().properties_s().count_v() as int,
    ) && (text == msg_fold_too_large() || exists|j: int, x: int|
        0 <= j < b.values_s().components_s().len() && 0 <= x < b.values_s().components_s()[
            j
        ].names_v().len() && text == msg_name_collision(
            b.values_s().components_s()[j].names_v()[x],
        )))
}

/// Move the named component columns of one block into its property axis.
pub(crate) fn block_components_to_properties(tb: &TensorBlock, variables: &Vec<String>) -> (r:
    Result<TensorBlock, Error>)
    requires
        tb.wf(),
        variables.deep_view().len() > 0,
    ensures
        (r is Ok) <==> ctp_ok(tb.values_s(), variables.deep_view()),
        r matches Ok(nb) ==> {
            let axes = marked_axes_from(tb.values_s(), variables.deep_view(), 0);
            &&& nb.wf()
            &&& fold_chain(tb.values_s(), nb.values_s(), axes)
            &&& nb.gradients_s().len() == tb.gradients_s().len()
            &&& forall|g: int|
                0 <= g < nb.gradients_s().len() ==> (#[trigger] nb.gradients_s()[g]).0@
                    == tb.gradients_s()[g].0@ && fold_chain(
                    tb.gradients_s()[g].1,
                    nb.gradients_s()[g].1,
                    axes,
                )
        },
        r matches Err(e) ==> ctp_err(*tb, variables.deep_view(), e.text()),
    {
    let ghost vars = variables.deep_view();
    let ghost bv = tb.values_s();
    let bb = tb.values();
    let ncomp = bb.components().len();

    // every requested name must occur in some component axis
    let mut vi: usize = 0;
    while vi < variables.len()
        invariant
            vi <= vars.len(),
            vars == variables.deep_view(),
            bv == tb.values_s(),
            tb.wf(),
            ncomp == bv.components_s().len(),
            *bb == bv,
            forall|k: int| 0 <= k < vi ==> var_resolvable(bv, #[trigger] vars[k]),
        decreases vars.len() - vi,
    {
        let mut found = false;
        let mut j: usize = 0;
        while j < ncomp
            invariant
                j <= ncomp,
                vi < vars.len(),
                vars == variables.deep_view(),
                bv == tb.values_s(),
                tb.wf(),
                ncomp == bv.components_s().len(),
                *bb == bv,
                found ==> var_resolvable(bv, vars[vi as int]),
                !found ==> forall|k: int|
                    0 <= k < j ==> !name_in_list(
                        vars[vi as int],
                        (#[trigger] bv.components_s()[k]).names_v(),
                    ),
            decreases ncomp - j,
        {
            if contains_name(bb.components()[j].names(), &variables[vi]) {
                found = true;
                proof {
                    assert(name_in_list(
                        vars[vi as int],
                        bv.components_s()[j as int].names_v(),
                    ));
                    assert(var_resolvable(bv, vars[vi as int]));
                }
            } else {
                proof {
                    assert(!name_in_list(
                        vars[vi as int],
                        bv.components_s()[j as int].names_v(),
                    ));
                }
            }
            j = j + 1;
        }
        if !found {
            let mut m = String::from_str("'");
            m.append(variables[vi].as_str());
            m.append("' is not part of the components of this block");
            proof {
                assert(m@ =~= msg_unknown_component(vars[vi as int]));
                assert(!var_resolvable(bv, vars[vi as int]));
                assert(forall|w: int| 0 <= w < vi ==> var_resolvable(bv, #[trigger] vars[w]));
            }
            return Err(Error::invalid_parameter(m));
        }
        vi = vi + 1;
    }

    // collect the marked axes, largest first, each moved whole
    let mut axes: Vec<usize> = Vec::new();
    let ghost mut axesg: Seq<int> = Seq::empty();
    proof {
        assert(marked_axes_from(bv, vars, ncomp as int) == Seq::<int>::empty());
    }
    let mut jj: usize = ncomp;
    while jj > 0
        invariant
            jj <= ncomp,
            vars == variables.deep_view(),
            bv == tb.values_s(),
            tb.wf(),
            ncomp == bv.components_s().len(),
            *bb == bv,
            all_resolvable(bv, vars),
            axesg == marked_axes_from(bv, vars, jj as int),
            axes@.len() == axesg.len(),
            forall|k: int| 0 <= k < axesg.len() ==> #[trigger] axes@[k] as int == axesg[k],
            forall|k: int| 0 <= k < axesg.len() ==> jj <= #[trigger] axesg[k] < ncomp,
            forall|k1: int, k2: int|
                0 <= k1 < k2 < axesg.len() ==> axesg[k1] > axesg[k2],
            forall|j: int|
                jj <= j < ncomp && #[trigger] axis_marked(bv, j, vars) ==> axis_whole(
                    bv,
                    j,
                    vars,
                ),
        decreases jj,
    {
        jj = jj - 1;
        let names = bb.components()[jj].names();
        let mut marked = false;
        let mut x: usize = 0;
        while x < names.len()
            invariant
                x <= names.deep_view().len(),
                jj < ncomp,
                vars == variables.deep_view(),
                bv == tb.values_s(),
                tb.wf(),
                ncomp == bv.components_s().len(),
                *bb == bv,
                names.deep_view() == bv.components_s()[jj as int].names_v(),
                marked ==> axis_marked(bv, jj as int, vars),
                !marked ==> forall|k: int|
                    0 <= k < x ==> !name_in_list(
                        bv.components_s()[jj as int].names_v()[k],
                        vars,
                    ),
            decreases names.deep_view().len() - x,
        {
            if contains_name(variables, &names[x]) {
                marked = true;
                proof {
                    assert(name_in_list(
                        bv.components_s()[jj as int].names_v()[x as int],
                        vars,
                    ));
                    assert(axis_marked(bv, jj as int, vars));
                }
            }
            x = x + 1;
        }
        if marked {
            let mut x2: usize = 0;
            while x2 < names.len()
                invariant
                    x2 <= names.deep_view().len(),
                    jj < ncomp,
                    vars == variables.deep_view(),
                    bv == tb.values_s(),
                    tb.wf(),
                    ncomp == bv.components_s().len(),
                    *bb == bv,
                    all_resolvable(bv, vars),
                    names.deep_view() == bv.components_s()[jj as int].names_v(),
                    axis_marked(bv, jj as int, vars),
                    forall|k: int|
                        0 <= k < x2 ==> name_in_list(
                            bv.components_s()[jj as int].names_v()[k],
                            vars,
                        ),
                decreases names.deep_view().len() - x2,
            {
                if !contains_name(variables, &names[x2]) {
                    let mut m = String::from_str(
                        "moving a component axis to the properties requires all its columns, '",
                    );
                    m.append(names[x2].as_str());
                    m.append("' is missing from the list");
                    proof {
                        assert(m@ =~= msg_partial_component(
                            bv.components_s()[jj as int].names_v()[x2 as int],
                        ));
                        assert(!axis_whole(bv, jj as int, vars));
                        assert(!ctp_ok(bv, vars));
                    }
                    return Err(Error::invalid_parameter(m));
                }
                x2 = x2 + 1;
            }
            axes.push(jj);
            proof {
                axesg = axesg + seq![jj as int];
                assert(marked_axes_from(bv, vars, jj as int) =~= marked_axes_from(
                    bv,
                    vars,
                    jj as int + 1,
                ) + seq![jj as int]);
            }
        } else {
            proof {
                assert(!axis_marked(bv, jj as int, vars));
                assert(marked_axes_from(bv, vars, jj as int) =~= marked_axes_from(
                    bv,
                    vars,
                    jj as int + 1,
                ));
            }
        }
    }
    proof {
        // the first name resolves somewhere, so some axis is marked
        assert(var_resolvable(bv, vars[0]));
        let j0 = choose|j: int|
            0 <= j < bv.components_s().len() && name_in_list(
                vars[0],
                (#[trigger] bv.components_s()[j]).names_v(),
            );
        let x0 = choose|x: int|
            0 <= x < bv.components_s()[j0].names_v().len() && bv.components_s()[
                j0
            ].names_v()[x] == vars[0];
        assert(name_in_list(bv.components_s()[j0].names_v()[x0], vars));
        assert(axis_marked(bv, j0, vars));
        lemma_marked_nonempty(bv, vars, j0, 0);
    }

    // fold the marked axes, values and gradients in lockstep
    let ghost p0n = bv.properties_s().names_v();
    let ghost p0c = bv.properties_s().count_v() as int;
    let a0 = axes[0];
    let mut cur = match fold_block_step(tb, a0) {
        Ok(c) => c,
        Err(e) => {
            proof {
                assert(!step_ok(bv, axesg[0]));
                assert(!steps_ok(bv, axesg, p0n, p0c));
            }
            return Err(e);
        },
    };
    let ghost mut mids: Seq<BasicBlock> = seq![cur.values_s()];
    let ghost mut gmids: Seq<Seq<BasicBlock>> = Seq::new(
        cur.gradients_s().len(),
        |g: int| seq![cur.gradients_s()[g].1],
    );
    proof {
        assert(fold_chain_with(bv, bv, Seq::<int>::empty(), Seq::<BasicBlock>::empty()));
        lemma_fold_chain_snoc(
            bv,
            bv,
            cur.values_s(),
            Seq::empty(),
            Seq::empty(),
            axesg[0],
        );
        assert(Seq::<int>::empty().push(axesg[0]) =~= axesg.take(1));
        assert(Seq::<BasicBlock>::empty().push(cur.values_s()) =~= mids);
        assert(fold_chain_with(bv, cur.values_s(), axesg.take(1), mids));
        assert forall|g: int| 0 <= g < cur.gradients_s().len() implies fold_chain_with(
            tb.gradients_s()[g].1,
            (#[trigger] cur.gradients_s()[g]).1,
            axesg.take(1),
            gmids[g],
        ) by {
            assert(fold_chain_with(
                tb.gradients_s()[g].1,
                tb.gradients_s()[g].1,
                Seq::<int>::empty(),
                Seq::<BasicBlock>::empty(),
            ));
            lemma_fold_chain_snoc(
                tb.gradients_s()[g].1,
                tb.gradients_s()[g].1,
                cur.gradients_s()[g].1,
                Seq::empty(),
                Seq::empty(),
                axesg[0],
            );
            assert(Seq::<int>::empty().push(axesg[0]) =~= axesg.take(1));
            assert(Seq::<BasicBlock>::empty().push(cur.gradients_s()[g].1) =~= gmids[g]);
        }
        assert(axesg.skip(0) =~= axesg);
        assert(axesg.skip(0).drop_first() =~= axesg.skip(1));
    }
    let mut m: usize = 1;
    while m < axes.len()
        invariant
            1 <= m <= axesg.len(),
            axes@.len() == axesg.len(),
            forall|k: int| 0 <= k < axesg.len() ==> #[trigger] axes@[k] as int == axesg[k],
            vars == variables.deep_view(),
            bv == tb.values_s(),
            tb.wf(),
            axesg == marked_axes_from(bv, vars, 0),
            p0n == bv.properties_s().names_v(),
            p0c == bv.properties_s().count_v() as int,
            forall|v: int| 0 <= v < vars.len() ==> var_resolvable(bv, #[trigger] vars[v]),
            forall|j: int|
                0 <= j < bv.components_s().len() && #[trigger] axis_marked(bv, j, vars)
                    ==> axis_whole(bv, j, vars),
            forall|k: int|
                0 <= k < axesg.len() ==> 0 <= #[trigger] axesg[k] < bv.components_s().len(),
            forall|k1: int, k2: int|
                0 <= k1 < k2 < axesg.len() ==> axesg[k1] > axesg[k2],
            cur.wf(),
            fold_chain_with(bv, cur.values_s(), axesg.take(m as int), mids),
            cur.gradients_s().len() == tb.gradients_s().len(),
            gmids.len() == cur.gradients_s().len(),
            forall|g: int|
                0 <= g < cur.gradients_s().len() ==> (#[trigger] cur.gradients_s()[g]).0@
                    == tb.gradients_s()[g].0@ && fold_chain_with(
                    tb.gradients_s()[g].1,
                    cur.gradients_s()[g].1,
                    axesg.take(m as int),
                    gmids[g],
                ),
            forall|k: int|
                m <= k < axesg.len() ==> #[trigger] axesg[k]
                    < cur.values_s().components_s().len() && labels_sim(
                    cur.values_s().components_s()[axesg[k]],
                    bv.components_s()[axesg[k]],
                ),
            steps_ok(bv, axesg, p0n, p0c) <==> steps_ok(
                bv,
                axesg.skip(m as int),
                cur.values_s().properties_s().names_v(),
                cur.values_s().properties_s().count_v() as int,
            ),
        decreases axes@.len() - m,
    {
        let a = axes[m];
        let ghost rest = axesg.skip(m as int);
        proof {
            assert(rest[0] == axesg[m as int]);
            assert(rest.drop_first() =~= axesg.skip(m as int + 1));
            assert(labels_sim(
                cur.values_s().components_s()[a as int],
                bv.components_s()[a as int],
            ));
        }
        match fold_block_step(&cur, a) {
            Ok(next) => {
                proof {
                    lemma_fold_chain_snoc(
                        bv,
                        cur.values_s(),
                        next.values_s(),
                        axesg.take(m as int),
                        mids,
                        axesg[m as int],
                    );
                    assert(axesg.take(m as int).push(axesg[m as int]) =~= axesg.take(
                        m as int + 1,
                    ));
                    let ghost old_gmids = gmids;
                    mids = mids.push(next.values_s());
                    gmids = Seq::new(
                        next.gradients_s().len(),
                        |g: int| old_gmids[g].push(next.gradients_s()[g].1),
                    );
                    assert forall|g: int| 0 <= g < next.gradients_s().len() implies (
                    #[trigger] next.gradients_s()[g]).0@ == tb.gradients_s()[g].0@
                        && fold_chain_with(
                        tb.gradients_s()[g].1,
                        next.gradients_s()[g].1,
                        axesg.take(m as int + 1),
                        gmids[g],
                    ) by {
                        lemma_fold_chain_snoc(
                            tb.gradients_s()[g].1,
                            cur.gradients_s()[g].1,
                            next.gradients_s()[g].1,
                            axesg.take(m as int),
                            old_gmids[g],
                            axesg[m as int],
                        );
                        assert(axesg.take(m as int).push(axesg[m as int]) =~= axesg.take(
                            m as int + 1,
                        ));
                    }
                    assert forall|k: int|
                        m + 1 <= k < axesg.len() implies axesg[k]
                            < next.values_s().components_s().len() && labels_sim(
                            next.values_s().components_s()[axesg[k]],
                            bv.components_s()[axesg[k]],
                        ) by {
                        assert(axesg[k] < axesg[m as int]);
                        assert(labels_sim(
                            next.values_s().components_s()[axesg[k]],
                            cur.values_s().components_s()[axesg[k]],
                        ));
                    }
                }
                cur = next;
            },
            Err(e) => {
                proof {
                    assert(!step_ok(cur.values_s(), a as int));
                    let cv = cur.values_s();
                    let pn = cv.properties_s().names_v();
                    let pw = cv.properties_s().count_v() as int;
                    assert(rest[0] == a as int);
                    assert(labels_sim(cv.components_s()[a as int], bv.components_s()[a as int]));
                    assert(cv.components_s()[a as int].names_v()
                        == bv.components_s()[a as int].names_v());
                    assert(cv.components_s()[a as int].count_v()
                        == bv.components_s()[a as int].count_v());
                    if steps_ok(bv, rest, pn, pw) {
                        assert(bv.components_s()[rest[0]].count_v() * pw <= usize::MAX);
                        assert forall|x: int, y: int|
                            0 <= x < cv.components_s()[a as int].names_v().len() && 0 <= y
                                < pn.len() implies cv.components_s()[a as int].names_v()[x]
                                != pn[y] by {
                            assert(bv.components_s()[rest[0]].names_v()[x] != pn[y]);
                        }
                        assert(step_ok(cv, a as int));
                    }
                    assert(!steps_ok(bv, rest,
                        cur.values_s().properties_s().names_v(),
                        cur.values_s().properties_s().count_v() as int));
                    assert(!steps_ok(bv, axesg, p0n, p0c));
                    assert(!ctp_ok(bv, vars));
                    // classify the message over the names the block had before any fold
                    if e.text() != msg_fold_too_large() {
                        let x = choose|x: int|
                            0 <= x < cur.values_s().components_s()[a as int].names_v().len()
                                && e.text() == msg_name_collision(
                                cur.values_s().components_s()[a as int].names_v()[x],
                            );
                        assert(bv.components_s()[a as int].names_v()[x]
                            == cur.values_s().components_s()[a as int].names_v()[x]);
                        assert(ctp_err(*tb, vars, e.text()));
                    }
                }
                return Err(e);
            },
        }
        m = m + 1;
    }
    proof {
        assert(axesg.take(axesg.len() as int) =~= axesg);
        assert(axesg.skip(axesg.len() as int) =~= Seq::<int>::empty());
        assert(steps_ok(bv, axesg, p0n, p0c));
        assert(ctp_ok(bv, vars));
        assert(fold_chain_with(bv, cur.values_s(), axesg, mids));
        assert(fold_chain(bv, cur.values_s(), axesg));
        assert forall|g: int| 0 <= g < cur.gradients_s().len() implies fold_chain(
            tb.gradients_s()[g].1,
            (#[trigger] cur.gradients_s()[g]).1,
            axesg,
        ) by {
            assert(fold_chain_with(
                tb.gradients_s()[g].1,
                cur.gradients_s()[g].1,
                axesg,
                gmids[g],
            ));
        }
    }
    Ok(cur)
}

/// A block addressed by one key of a tensor map: its values and the
/// gradients attached to it, by gradient-parameter name.
#[derive(Debug, Clone)]
pub struct TensorBlock {
    values: BasicBlock,
    gradients: Vec<(String, BasicBlock)>,
}

impl TensorBlock {
    /// The values sub-block.
    pub closed spec fn values_s(&self) -> BasicBlock {
        self.values
    }

    /// The gradients, as (parameter name, sub-block) pairs.
    pub closed spec fn gradients_s(&self) -> Seq<(String, BasicBlock)> {
        self.gradients@
    }

    /// Well-formedness: valid values and gradients, unique gradient
    /// parameters, and every gradient sharing the parent's component and
    /// property schema.
    pub open spec fn wf(&self) -> bool {
        &&& self.values_s().wf()
        &&& forall|i: int|
            0 <= i < self.gradients_s().len() ==> (#[trigger] self.gradients_s()[i]).1.wf()
        &&& forall|i: int, j: int|
            0 <= i < self.gradients_s().len() && 0 <= j < self.gradients_s().len() && i != j
                ==> self.gradients_s()[i].0@ != self.gradients_s()[j].0@
        &&& forall|i: int|
            0 <= i < self.gradients_s().len() ==> components_sim(
                (#[trigger] self.gradients_s()[i]).1.components_s(),
                self.values_s().components_s(),
            )
        &&& forall|i: int|
            0 <= i < self.gradients_s().len() ==> labels_sim(
                (#[trigger] self.gradients_s()[i]).1.properties_s(),
                self.values_s().properties_s(),
            )
    }

    /// Build a block, without gradients, from its values array and labels.
    pub fn new(
        data: ArrayData,
        samples: Labels,
        components: Vec<Labels>,
        properties: Labels,
    ) -> (r: Result<TensorBlock, Error>)
        requires
            data.wf(),
            samples.wf(),
            forall|j: int| 0 <= j < components@.len() ==> (#[trigger] components@[j]).wf(),
            properties.wf(),
        ensures
            (r is Ok) <==> BasicBlock::shape_ok(data, samples, components@, properties),
            r matches Ok(b) ==> b.wf() && b.values_s().values_s() == data
                && b.values_s().samples_s() == samples && b.values_s().components_s()
                == components@ && b.values_s().properties_s() == properties
                && b.gradients_s().len() == 0,
            r matches Err(e) ==> e.text() == msg_block_shape(),
    {
        match BasicBlock::new(data, samples, components, properties) {
            Ok(values) => Ok(TensorBlock { values, gradients: Vec::new() }),
            Err(e) => Err(e),
        }
    }

    /// Attach a gradient sub-block under the given parameter name.
    ///
    /// Fails when the parameter already exists on this block, or when the
    /// gradient's component or property tables differ from the parent's.
    pub fn add_gradient(&mut self, parameter: String, gradient: BasicBlock) -> (r: Result<
        (),
        Error,
    >)
        requires
            old(self).wf(),
            gradient.wf(),
        ensures
            final(self).wf(),
            (r is Ok) <==> ((forall|i: int|
                0 <= i < old(self).gradients_s().len() ==> old(self).gradients_s()[i].0@
                    != parameter@) && components_sim(
                gradient.components_s(),
                old(self).values_s().components_s(),
            ) && labels_sim(gradient.properties_s(), old(self).values_s().properties_s())),
            r is Ok ==> final(self).values_s() == old(self).values_s()
                && final(self).gradients_s() == old(self).gradients_s().push(
                (parameter, gradient),
            ),
            r is Err ==> *final(self) == *old(self),
            r matches Err(e) ==> e.text() == (if exists|i: int|
                0 <= i < old(self).gradients_s().len() && old(self).gradients_s()[i].0@
                    == parameter@ {
                msg_gradient_exists(parameter@)
            } else {
                msg_gradient_schema()
            }),
    {
        let mut i: usize = 0;
        while i < self.gradients.len()
            invariant
                i <= self.gradients.len(),
                *self == *old(self),
                old(self).wf(),
                forall|k: int| 0 <= k < i ==> self.gradients_s()[k].0@ != parameter@,
            decreases self.gradients.len() - i,
        {
            if self.gradients[i].0 == parameter {
                let mut m = String::from_str("gradient with respect to '");
                m.append(parameter.as_str());
                m.append("' already exists in this block");
                proof {
                    assert(m@ =~= msg_gradient_exists(parameter@));
                    assert(old(self).gradients_s()[i as int].0@ == parameter@);
                }
                return Err(Error::invalid_parameter(m));
            }
            i = i + 1;
        }
        let schema_ok = {
            if gradient.components().len() != self.values.components().len() {
                false
            } else {
                let mut ok = true;
                let mut j: usize = 0;
                while j < gradient.components().len()
                    invariant
                        j <= gradient.components_s().len(),
                        gradient.components_s().len()
                            == self.values_s().components_s().len(),
                        *self == *old(self),
                        ok <==> forall|k: int|
                            0 <= k < j ==> labels_sim(
                                #[trigger] gradient.components_s()[k],
                                self.values_s().components_s()[k],
                            ),
                    decreases gradient.components_s().len() - j,
                {
                    if !labels_equal(&gradient.components()[j], &self.values.components()[j]) {
                        ok = false;
                        proof {
                            assert(!labels_sim(
                                gradient.components_s()[j as int],
                                self.values_s().components_s()[j as int],
                            ));
                        }
                    }
                    j = j + 1;
                }
                ok && labels_equal(gradient.properties(), self.values.properties())
            }
        };
        if !schema_ok {
            return Err(Error::invalid_parameter(String::from_str(
                "gradient components and properties must match the block's own",
            )));
        }
        self.gradients.push((parameter, gradient));
        Ok(())
    }

    /// The values sub-block of this block.
    pub fn values(&self) -> (r: &BasicBlock)
        ensures
            *r == self.values_s(),
    {
        &self.values
    }

    /// The gradients of this block, as (parameter, sub-block) pairs.
    pub fn gradients(&self) -> (r: &Vec<(String, BasicBlock)>)
        ensures
            r@ == self.gradients_s(),
    {
        &self.gradients
    }
}

} // verus!
