//! The tensor map: a keys label table and one block per key row, with a
//! schema-validating constructor, partial-key block selection, and the
//! component-to-property reshape operation.

use vstd::prelude::*;
use vstd::string::StringExecFns;
use crate::error::Error;
use crate::labels::{Labels, find_name, lemma_find_name, names_equal, copy_row};
use crate::block::{
    BasicBlock, TensorBlock, fold_chain, fold_chain_with, marked_axes_from, ctp_ok, ctp_err,
    block_components_to_properties, same_axis_names, lemma_chain_same_names,
    lemma_marked_axes_same_names, lemma_marked_axes_props, lemma_desc_axes_bound,
};
use crate::labels::labels_sim;
use crate::strings::{dec_digits, dec_int, join_with, join_comma, usize_string, i64_string};

verus! {

/// Message for a block list whose length differs from the key count.
pub open spec fn msg_count_mismatch(nkeys: int, nblocks: int) -> Seq<char> {
    "expected the same number of blocks ("@ + dec_digits(nkeys)
        + ") as the number of entries in the keys when creating a tensor, got "@ + dec_digits(
        nblocks,
    )
}

/// Message for blocks whose sample names differ.
pub open spec fn msg_sample_names(got: Seq<Seq<char>>, expected: Seq<Seq<char>>, ctx: Seq<char>) -> Seq<
    char,
> {
    "all blocks must have the same sample label names, got ["@ + join_with(got, ", "@)
        + "] and ["@ + join_with(expected, ", "@) + "]"@ + ctx
}

/// Message for blocks with different numbers of component axes.
pub open spec fn msg_components_count(got: int, expected: int, ctx: Seq<char>) -> Seq<char> {
    "all blocks must contains the same set of components, the current block has "@
        + dec_digits(got) + " components while the first block has "@ + dec_digits(expected)
        + ctx
}

/// Message for blocks whose component names differ on some axis.
pub open spec fn msg_component_names(
    got: Seq<Seq<char>>,
    expected: Seq<Seq<char>>,
    ctx: Seq<char>,
) -> Seq<char> {
    "all blocks must have the same component label names, got ["@ + join_with(got, ", "@)
        + "] and ["@ + join_with(expected, ", "@) + "]"@ + ctx
}

/// Message for blocks whose property names differ.
pub open spec fn msg_property_names(got: Seq<Seq<char>>, expected: Seq<Seq<char>>) -> Seq<char> {
    "all blocks must have the same property label names, got ["@ + join_with(got, ", "@)
        + "] and ["@ + join_with(expected, ", "@) + "]"@
}

/// Message for blocks exposing different numbers of gradients.
pub open spec fn msg_gradients_set() -> Seq<char> {
    "all blocks must contains the same set of gradients"@
}

/// Message for a gradient parameter absent from the reference block.
pub open spec fn msg_missing_gradient(parameter: Seq<char>) -> Seq<char> {
    "missing gradient with respect to "@ + parameter + " in one of the blocks"@
}

/// Context appended to schema messages raised on a gradient.
pub open spec fn grad_context(parameter: Seq<char>) -> Seq<char> {
    " for gradients with respect to "@ + parameter
}

/// Message for a selection with more than one row.
pub open spec fn msg_single_row(count: int) -> Seq<char> {
    "block selection labels must contain a single row, got "@ + dec_digits(count)
}

/// Message for a selection column absent from the keys.
pub open spec fn msg_unknown_name(name: Seq<char>) -> Seq<char> {
    "'"@ + name + "' is not part of the keys for this tensor"@
}

/// The selection rendered as `name = value` pairs joined by `", "`.
pub open spec fn selection_text(names: Seq<Seq<char>>, row: Seq<i32>) -> Seq<char> {
    join_with(Seq::new(names.len(), |j: int| names[j] + " = "@ + dec_int(row[j] as int)), ", "@)
}

/// Message for a single-block query that did not match exactly one block.
pub open spec fn msg_matched_count(count: int, selection: Seq<char>) -> Seq<char> {
    dec_digits(count) + " blocks matched the selection ("@ + selection
        + "), expected only one"@
}

/// First component axis whose names differ between `a` and `b`, or -1.
pub open spec fn first_component_mismatch(a: Seq<Labels>, b: Seq<Labels>) -> int
    decreases a.len(),
{
    if a.len() == 0 || b.len() == 0 {
        -1
    } else if a[0].names_v() != b[0].names_v() {
        0
    } else if first_component_mismatch(a.drop_first(), b.drop_first()) < 0 {
        -1
    } else {
        first_component_mismatch(a.drop_first(), b.drop_first()) + 1
    }
}

pub proof fn lemma_first_component_mismatch(a: Seq<Labels>, b: Seq<Labels>)
    requires
        a.len() == b.len(),
    ensures
        first_component_mismatch(a, b) < 0 ==> forall|j: int|
            0 <= j < a.len() ==> (#[trigger] a[j]).names_v() == b[j].names_v(),
        first_component_mismatch(a, b) >= 0 ==> {
            let m = first_component_mismatch(a, b);
            &&& m < a.len()
            &&& a[m].names_v() != b[m].names_v()
            &&& forall|j: int| 0 <= j < m ==> (#[trigger] a[j]).names_v() == b[j].names_v()
        },
    decreases a.len(),
{
    if a.len() > 0 {
        lemma_first_component_mismatch(a.drop_first(), b.drop_first());
        assert forall|j: int| 1 <= j < a.len() implies a.drop_first()[j - 1] == a[j]
            && b.drop_first()[j - 1] == b[j] by {}
    }
}

/// The schema mismatch between a block and the reference block, if any:
/// sample names first, then the number of component axes, then the names of
/// the first differing component axis.
pub open spec fn labels_check_msg(block: BasicBlock, reference: BasicBlock, ctx: Seq<char>) -> Option<
    Seq<char>,
> {
    if block.samples_s().names_v() != reference.samples_s().names_v() {
        Some(
            msg_sample_names(
                block.samples_s().names_v(),
                reference.samples_s().names_v(),
                ctx,
            ),
        )
    } else if block.components_s().len() != reference.components_s().len() {
        Some(
            msg_components_count(
                block.components_s().len() as int,
                reference.components_s().len() as int,
                ctx,
            ),
        )
    } else if first_component_mismatch(block.components_s(), reference.components_s()) >= 0 {
        let m = first_component_mismatch(block.components_s(), reference.components_s());
        Some(
            msg_component_names(
                block.components_s()[m].names_v(),
                reference.components_s()[m].names_v(),
                ctx,
            ),
        )
    } else {
        None
    }
}

/// First gradient of `grads` named `parameter`, or -1.
pub open spec fn find_gradient(grads: Seq<(String, BasicBlock)>, parameter: Seq<char>) -> int
    decreases grads.len(),
{
    if grads.len() == 0 {
        -1
    } else if grads[0].0@ == parameter {
        0
    } else if find_gradient(grads.drop_first(), parameter) < 0 {
        -1
    } else {
        find_gradient(grads.drop_first(), parameter) + 1
    }
}

pub proof fn lemma_find_gradient(grads: Seq<(String, BasicBlock)>, parameter: Seq<char>)
    ensures
        find_gradient(grads, parameter) >= 0 ==> find_gradient(grads, parameter) < grads.len()
            && grads[find_gradient(grads, parameter)].0@ == parameter,
        find_gradient(grads, parameter) < 0 ==> forall|i: int|
            0 <= i < grads.len() ==> (#[trigger] grads[i]).0@ != parameter,
        find_gradient(grads, parameter) >= 0 ==> forall|i: int|
            0 <= i < find_gradient(grads, parameter) ==> (#[trigger] grads[i]).0@ != parameter,
    decreases grads.len(),
{
    if grads.len() > 0 {
        lemma_find_gradient(grads.drop_first(), parameter);
        assert forall|i: int| 1 <= i < grads.len() implies grads.drop_first()[i - 1]
            == grads[i] by {}
    }
}

/// The first schema mismatch among the gradients of a block, checked in the
/// block's own gradient order against the reference block's gradients.
pub open spec fn gradients_check_msg(
    grads: Seq<(String, BasicBlock)>,
    ref_grads: Seq<(String, BasicBlock)>,
) -> Option<Seq<char>>
    decreases grads.len(),
{
    if grads.len() == 0 {
        None
    } else {
        let p = grads[0].0@;
        let r = find_gradient(ref_grads, p);
        if r < 0 {
            Some(msg_missing_gradient(p))
        } else if labels_check_msg(grads[0].1, ref_grads[r].1, grad_context(p)) is Some {
            labels_check_msg(grads[0].1, ref_grads[r].1, grad_context(p))
        } else {
            gradients_check_msg(grads.drop_first(), ref_grads)
        }
    }
}

/// The first schema mismatch between a block and the reference block, in
/// check order: samples and components, then properties, then the gradient
/// set, then each gradient's samples and components.
pub open spec fn block_schema_msg(block: TensorBlock, reference: TensorBlock) -> Option<
    Seq<char>,
> {
    if labels_check_msg(block.values_s(), reference.values_s(), Seq::empty()) is Some {
        labels_check_msg(block.values_s(), reference.values_s(), Seq::empty())
    } else if block.values_s().properties_s().names_v()
        != reference.values_s().properties_s().names_v() {
        Some(
            msg_property_names(
                block.values_s().properties_s().names_v(),
                reference.values_s().properties_s().names_v(),
            ),
        )
    } else if block.gradients_s().len() != reference.gradients_s().len() {
        Some(msg_gradients_set())
    } else {
        gradients_check_msg(block.gradients_s(), reference.gradients_s())
    }
}

/// All blocks agree with block 0 on sample, component and property names
/// and on their gradient schemas.
pub open spec fn blocks_consistent(blocks: Seq<TensorBlock>) -> bool {
    forall|i: int|
        0 <= i < blocks.len() ==> block_schema_msg(#[trigger] blocks[i], blocks[0]) is None
}

/// One row of a keys table matches a selection row when the key's value in
/// every selected column equals the selection's value there.
pub open spec fn row_matches(
    key_row: Seq<i32>,
    keys_names: Seq<Seq<char>>,
    sel_names: Seq<Seq<char>>,
    sel_row: Seq<i32>,
) -> bool {
    forall|j: int|
        0 <= j < sel_names.len() ==> key_row[find_name(keys_names, #[trigger] sel_names[j])]
            == sel_row[j]
}

/// Indices of the first `n` key rows that match the selection, in order.
pub open spec fn matching_prefix(
    keys: Labels,
    sel_names: Seq<Seq<char>>,
    sel_row: Seq<i32>,
    n: int,
) -> Seq<usize>
    decreases n,
{
    if n <= 0 {
        Seq::empty()
    } else {
        let p = matching_prefix(keys, sel_names, sel_row, n - 1);
        if row_matches(keys.rows_v()[n - 1], keys.names_v(), sel_names, sel_row) {
            p.push((n - 1) as usize)
        } else {
            p
        }
    }
}

/// The first row of a selection, or the empty row when it has none.
pub open spec fn first_row(l: Labels) -> Seq<i32> {
    if l.count_v() > 0 {
        l.rows_v()[0]
    } else {
        Seq::empty()
    }
}

/// Indices of all key rows matching the selection, in original key order.
pub open spec fn matching_indices(keys: Labels, selection: Labels) -> Seq<usize> {
    matching_prefix(keys, selection.names_v(), first_row(selection), keys.count_v())
}

pub proof fn lemma_matching_prefix_bounds(
    keys: Labels,
    sel_names: Seq<Seq<char>>,
    sel_row: Seq<i32>,
    n: int,
)
    ensures
        forall|k: int|
            0 <= k < matching_prefix(keys, sel_names, sel_row, n).len() ==> 0 <= (
            #[trigger] matching_prefix(keys, sel_names, sel_row, n)[k]) < n,
    decreases n,
{
    if n > 0 {
        lemma_matching_prefix_bounds(keys, sel_names, sel_row, n - 1);
        let p = matching_prefix(keys, sel_names, sel_row, n - 1);
        let q = matching_prefix(keys, sel_names, sel_row, n);
        assert forall|k: int| 0 <= k < q.len() implies 0 <= #[trigger] q[k] < n by {
            if row_matches(keys.rows_v()[n - 1], keys.names_v(), sel_names, sel_row) {
                assert(q == p.push((n - 1) as usize));
                if k < p.len() {
                    assert(q[k] == p[k]);
                }
            } else {
                assert(q == p);
            }
        }
    }
}

/// All key columns a selection names exist in the keys table.
pub open spec fn selection_resolvable(keys: Labels, selection: Labels) -> bool {
    forall|j: int|
        0 <= j < selection.names_v().len() ==> find_name(
            keys.names_v(),
            #[trigger] selection.names_v()[j],
        ) >= 0
}

/// A selection is accepted when it has no columns, or exactly one row with
/// every named column present in the keys.
pub open spec fn selection_ok(keys: Labels, selection: Labels) -> bool {
    selection.size_v() == 0 || (selection.count_v() == 1 && selection_resolvable(
        keys,
        selection,
    ))
}

fn check_labels_names(block: &BasicBlock, reference: &BasicBlock, context: &String) -> (r:
    Result<(), Error>)
    ensures
        (r is Ok) <==> labels_check_msg(*block, *reference, context@) is None,
        r matches Err(e) ==> labels_check_msg(*block, *reference, context@) == Some(e.text()),
{
    if !names_equal(block.samples().names(), reference.samples().names()) {
        let mut m = String::from_str("all blocks must have the same sample label names, got [");
        let got = join_comma(block.samples().names());
        m.append(got.as_str());
        m.append("] and [");
        let expected = join_comma(reference.samples().names());
        m.append(expected.as_str());
        m.append("]");
        m.append(context.as_str());
        proof {
            assert(m@ =~= msg_sample_names(
                block.samples_s().names_v(),
                reference.samples_s().names_v(),
                context@,
            ));
        }
        return Err(Error::invalid_parameter(m));
    }
    if block.components().len() != reference.components().len() {
        let mut m = String::from_str(
            "all blocks must contains the same set of components, the current block has ",
        );
        let got = usize_string(block.components().len());
        m.append(got.as_str());
        m.append(" components while the first block has ");
        let expected = usize_string(reference.components().len());
        m.append(expected.as_str());
        m.append(context.as_str());
        proof {
            assert(m@ =~= msg_components_count(
                block.components_s().len() as int,
                reference.components_s().len() as int,
                context@,
            ));
        }
        return Err(Error::invalid_parameter(m));
    }
    let n = block.components().len();
    let mut j: usize = 0;
    while j < n
        invariant
            j <= n,
            n == block.components_s().len(),
            n == reference.components_s().len(),
            block.samples_s().names_v() == reference.samples_s().names_v(),
            forall|k: int|
                0 <= k < j ==> (#[trigger] block.components_s()[k]).names_v()
                    == reference.components_s()[k].names_v(),
        decreases n - j,
    {
        if !names_equal(block.components()[j].names(), reference.components()[j].names()) {
            let mut m = String::from_str(
                "all blocks must have the same component label names, got [",
            );
            let got = join_comma(block.components()[j].names());
            m.append(got.as_str());
            m.append("] and [");
            let expected = join_comma(reference.components()[j].names());
            m.append(expected.as_str());
            m.append("]");
            m.append(context.as_str());
            proof {
                lemma_first_component_mismatch(
                    block.components_s(),
                    reference.components_s(),
                );
                let fcm = first_component_mismatch(
                    block.components_s(),
                    reference.components_s(),
                );
                assert(block.components_s()[j as int].names_v()
                    != reference.components_s()[j as int].names_v());
                assert(fcm == j as int);
                assert(m@ =~= msg_component_names(
                    block.components_s()[j as int].names_v(),
                    reference.components_s()[j as int].names_v(),
                    context@,
                ));
            }
            return Err(Error::invalid_parameter(m));
        }
        j = j + 1;
    }
    proof {
        lemma_first_component_mismatch(block.components_s(), reference.components_s());
    }
    Ok(())
}

fn check_block_schema(block: &TensorBlock, reference: &TensorBlock) -> (r: Result<(), Error>)
    ensures
        (r is Ok) <==> block_schema_msg(*block, *reference) is None,
        r matches Err(e) ==> block_schema_msg(*block, *reference) == Some(e.text()),
{
    let empty_context = String::new();
    match check_labels_names(block.values(), reference.values(), &empty_context) {
        Ok(()) => {},
        Err(e) => {
            return Err(e);
        },
    }
    if !names_equal(block.values().properties().names(), reference.values().properties().names())
        {
        let mut m = String::from_str(
            "all blocks must have the same property label names, got [",
        );
        let got = join_comma(block.values().properties().names());
        m.append(got.as_str());
        m.append("] and [");
        let expected = join_comma(reference.values().properties().names());
        m.append(expected.as_str());
        m.append("]");
        proof {
            assert(m@ =~= msg_property_names(
                block.values_s().properties_s().names_v(),
                reference.values_s().properties_s().names_v(),
            ));
        }
        return Err(Error::invalid_parameter(m));
    }
    if block.gradients().len() != reference.gradients().len() {
        return Err(Error::invalid_parameter(String::from_str(
            "all blocks must contains the same set of gradients",
        )));
    }
    let n = block.gradients().len();
    let mut gi: usize = 0;
    proof {
        assert(block.gradients_s().skip(0) =~= block.gradients_s());
    }
    while gi < n
        invariant
            gi <= n,
            n == block.gradients_s().len(),
            n == reference.gradients_s().len(),
            labels_check_msg(block.values_s(), reference.values_s(), Seq::empty()) is None,
            block.values_s().properties_s().names_v()
                == reference.values_s().properties_s().names_v(),
            gradients_check_msg(block.gradients_s(), reference.gradients_s())
                == gradients_check_msg(
                block.gradients_s().skip(gi as int),
                reference.gradients_s(),
            ),
        decreases n - gi,
    {
        let ghost rest = block.gradients_s().skip(gi as int);
        proof {
            assert(rest[0] == block.gradients_s()[gi as int]);
            assert(rest.drop_first() =~= block.gradients_s().skip(gi as int + 1));
        }
        let parameter = &block.gradients()[gi].0;
        match find_gradient_in(reference.gradients(), parameter) {
            None => {
                let mut m = String::from_str("missing gradient with respect to ");
                m.append(parameter.as_str());
                m.append(" in one of the blocks");
                proof {
                    assert(m@ =~= msg_missing_gradient(parameter@));
                }
                return Err(Error::invalid_parameter(m));
            },
            Some(ri) => {
                let mut context = String::from_str(" for gradients with respect to ");
                context.append(parameter.as_str());
                proof {
                    assert(context@ =~= grad_context(parameter@));
                }
                match check_labels_names(
                    &block.gradients()[gi].1,
                    &reference.gradients()[ri].1,
                    &context,
                ) {
                    Ok(()) => {},
                    Err(e) => {
                        return Err(e);
                    },
                }
            },
        }
        gi = gi + 1;
    }
    proof {
        assert(block.gradients_s().skip(n as int) =~= Seq::<(String, BasicBlock)>::empty());
    }
    Ok(())
}

fn find_gradient_in(grads: &Vec<(String, BasicBlock)>, parameter: &String) -> (r: Option<usize>)
    ensures
        r matches Some(i) ==> 0 <= find_gradient(grads@, parameter@) == i < grads@.len()
            && grads@[i as int].0@ == parameter@,
        r is None ==> find_gradient(grads@, parameter@) < 0,
{
    let mut i: usize = 0;
    while i < grads.len()
        invariant
            i <= grads@.len(),
            forall|k: int| 0 <= k < i ==> (#[trigger] grads@[k]).0@ != parameter@,
        decreases grads@.len() - i,
    {
        if grads[i].0 == *parameter {
            proof {
                lemma_find_gradient(grads@, parameter@);
                let f = find_gradient(grads@, parameter@);
                assert(grads@[i as int].0@ == parameter@);
                assert(f == i as int);
            }
            return Some(i);
        }
        i = i + 1;
    }
    proof {
        lemma_find_gradient(grads@, parameter@);
        let f = find_gradient(grads@, parameter@);
        if f >= 0 {
            assert(grads@[f].0@ == parameter@);
        }
    }
    None
}


/// A labels check passes exactly when the sample names and all component
/// names agree.
pub proof fn lemma_labels_check_none(b: BasicBlock, r: BasicBlock, ctx: Seq<char>)
    ensures
        labels_check_msg(b, r, ctx) is None <==> (b.samples_s().names_v()
            == r.samples_s().names_v() && b.components_s().len() == r.components_s().len() && (
        forall|j: int|
            0 <= j < b.components_s().len() ==> (#[trigger] b.components_s()[j]).names_v()
                == r.components_s()[j].names_v())),
{
    if b.components_s().len() == r.components_s().len() {
        lemma_first_component_mismatch(b.components_s(), r.components_s());
    }
}

/// A passing gradients check pairs every gradient with a reference
/// gradient of the same name whose sample and component names agree.
pub proof fn lemma_gradients_check_none(
    grads: Seq<(String, BasicBlock)>,
    ref_grads: Seq<(String, BasicBlock)>,
)
    requires
        gradients_check_msg(grads, ref_grads) is None,
    ensures
        forall|k: int|
            0 <= k < grads.len() ==> 0 <= find_gradient(ref_grads, (#[trigger] grads[k]).0@)
                < ref_grads.len() && labels_check_msg(
                grads[k].1,
                ref_grads[find_gradient(ref_grads, grads[k].0@)].1,
                grad_context(grads[k].0@),
            ) is None,
    decreases grads.len(),
{
    if grads.len() > 0 {
        lemma_find_gradient(ref_grads, grads[0].0@);
        lemma_gradients_check_none(grads.drop_first(), ref_grads);
        assert forall|k: int|
            0 <= k < grads.len() implies 0 <= find_gradient(
                ref_grads,
                (#[trigger] grads[k]).0@,
            ) < ref_grads.len() && labels_check_msg(
                grads[k].1,
                ref_grads[find_gradient(ref_grads, grads[k].0@)].1,
                grad_context(grads[k].0@),
            ) is None by {
            if k > 0 {
                assert(grads.drop_first()[k - 1] == grads[k]);
            }
        }
    }
}

/// A gradients check passes when every gradient finds a reference
/// gradient of its name whose sample and component names agree.
pub proof fn lemma_gradients_check_all_ok(
    grads: Seq<(String, BasicBlock)>,
    ref_grads: Seq<(String, BasicBlock)>,
)
    requires
        forall|k: int|
            0 <= k < grads.len() ==> 0 <= find_gradient(ref_grads, (#[trigger] grads[k]).0@)
                < ref_grads.len() && labels_check_msg(
                grads[k].1,
                ref_grads[find_gradient(ref_grads, grads[k].0@)].1,
                grad_context(grads[k].0@),
            ) is None,
    ensures
        gradients_check_msg(grads, ref_grads) is None,
    decreases grads.len(),
{
    if grads.len() > 0 {
        assert(0 <= find_gradient(ref_grads, grads[0].0@));
        assert forall|k: int|
            0 <= k < grads.drop_first().len() implies 0 <= find_gradient(
                ref_grads,
                (#[trigger] grads.drop_first()[k]).0@,
            ) < ref_grads.len() && labels_check_msg(
                grads.drop_first()[k].1,
                ref_grads[find_gradient(ref_grads, grads.drop_first()[k].0@)].1,
                grad_context(grads.drop_first()[k].0@),
            ) is None by {
            assert(grads.drop_first()[k] == grads[k + 1]);
        }
        lemma_gradients_check_all_ok(grads.drop_first(), ref_grads);
    }
}

/// Where a gradient is found by name depends only on the names.
pub proof fn lemma_find_gradient_same_names(
    g1: Seq<(String, BasicBlock)>,
    g2: Seq<(String, BasicBlock)>,
    parameter: Seq<char>,
)
    requires
        g1.len() == g2.len(),
        forall|i: int| 0 <= i < g1.len() ==> (#[trigger] g1[i]).0@ == g2[i].0@,
    ensures
        find_gradient(g1, parameter) == find_gradient(g2, parameter),
    decreases g1.len(),
{
    if g1.len() > 0 {
        assert forall|i: int|
            0 <= i < g1.drop_first().len() implies (#[trigger] g1.drop_first()[i]).0@
                == g2.drop_first()[i].0@ by {
            assert(g1.drop_first()[i] == g1[i + 1]);
            assert(g2.drop_first()[i] == g2[i + 1]);
        }
        lemma_find_gradient_same_names(g1.drop_first(), g2.drop_first(), parameter);
    }
}

/// A tensor map: a keys table and one block per key row.
///
/// The constructor checks that all blocks share one axis-name schema; the
/// map can then be queried by partial key selections and reshaped.
#[derive(Debug)]
pub struct TensorMap {
    keys: Labels,
    blocks: Vec<TensorBlock>,
}

impl TensorMap {
    /// The keys table.
    pub closed spec fn keys_s(&self) -> Labels {
        self.keys
    }

    /// The blocks, in key order.
    pub closed spec fn blocks_s(&self) -> Seq<TensorBlock> {
        self.blocks@
    }

    /// Well-formedness: valid keys and blocks, one block per key row, and a
    /// consistent schema across blocks.
    pub open spec fn wf(&self) -> bool {
        &&& self.keys_s().wf()
        &&& self.blocks_s().len() == self.keys_s().count_v()
        &&& forall|i: int| 0 <= i < self.blocks_s().len() ==> (#[trigger] self.blocks_s()[i]).wf()
        &&& blocks_consistent(self.blocks_s())
    }

    /// Build a tensor map from its keys and blocks.
    ///
    /// Succeeds exactly when there is one block per key row and every block
    /// agrees with block 0 on sample, component and property names and on
    /// its gradient schema; the first mismatch found is reported.
    pub fn new(keys: Labels, blocks: Vec<TensorBlock>) -> (r: Result<TensorMap, Error>)
        requires
            keys.wf(),
            forall|i: int| 0 <= i < blocks@.len() ==> (#[trigger] blocks@[i]).wf(),
        ensures
            (r is Ok) <==> (blocks@.len() == keys.count_v() && blocks_consistent(blocks@)),
            r matches Ok(t) ==> t.wf() && t.keys_s() == keys && t.blocks_s() == blocks@,
            blocks@.len() != keys.count_v() ==> (r matches Err(e) && e.text()
                == msg_count_mismatch(keys.count_v(), blocks@.len() as int)),
            blocks@.len() == keys.count_v() && !blocks_consistent(blocks@) ==> (r matches Err(e)
                && exists|i: int|
                0 <= i < blocks@.len() && (forall|k: int|
                    0 <= k < i ==> block_schema_msg(#[trigger] blocks@[k], blocks@[0]) is None)
                    && block_schema_msg(blocks@[i], blocks@[0]) == Some(e.text())),
    {
        if blocks.len() != keys.count() {
            let mut m = String::from_str("expected the same number of blocks (");
            let nkeys = usize_string(keys.count());
            m.append(nkeys.as_str());
            m.append(") as the number of entries in the keys when creating a tensor, got ");
            let nblocks = usize_string(blocks.len());
            m.append(nblocks.as_str());
            proof {
                assert(m@ =~= msg_count_mismatch(keys.count_v(), blocks@.len() as int));
            }
            return Err(Error::invalid_parameter(m));
        }
        let mut i: usize = 0;
        while i < blocks.len()
            invariant
                i <= blocks@.len(),
                blocks@.len() == keys.count_v(),
                forall|k: int|
                    0 <= k < i ==> block_schema_msg(#[trigger] blocks@[k], blocks@[0]) is None,
            decreases blocks@.len() - i,
        {
            match check_block_schema(&blocks[i], &blocks[0]) {
                Ok(()) => {},
                Err(e) => {
                    proof {
                        assert(block_schema_msg(blocks@[i as int], blocks@[0]) == Some(
                            e.text(),
                        ));
                        assert(!blocks_consistent(blocks@));
                    }
                    return Err(e);
                },
            }
            i = i + 1;
        }
        Ok(TensorMap { keys, blocks })
    }


    /// Move the named component columns of every block into that block's
    /// property axis, in place.
    ///
    /// With no names this is a no-op. Otherwise each block is reshaped
    /// independently; the keys are unchanged. On any failure the map is
    /// left as it was.
    pub fn components_to_properties(&mut self, variables: &Vec<String>) -> (r: Result<
        (),
        Error,
    >)
        requires
            old(self).wf(),
        ensures
            final(self).wf(),
            variables.deep_view().len() == 0 ==> r is Ok && *final(self) == *old(self),
            r is Err ==> *final(self) == *old(self),
            r is Ok ==> final(self).keys_s() == old(self).keys_s()
                && final(self).blocks_s().len() == old(self).blocks_s().len(),
            (r is Ok) <==> (variables.deep_view().len() == 0 || forall|i: int|
                0 <= i < old(self).blocks_s().len() ==> ctp_ok(
                    (#[trigger] old(self).blocks_s()[i]).values_s(),
                    variables.deep_view(),
                )),
            r is Ok && variables.deep_view().len() > 0 ==> forall|i: int|
                0 <= i < old(self).blocks_s().len() ==> ctp_ok(
                    (#[trigger] old(self).blocks_s()[i]).values_s(),
                    variables.deep_view(),
                ) && {
                    let ob = old(self).blocks_s()[i];
                    let nb = final(self).blocks_s()[i];
                    let axes = marked_axes_from(ob.values_s(), variables.deep_view(), 0);
                    &&& fold_chain(ob.values_s(), nb.values_s(), axes)
                    &&& nb.gradients_s().len() == ob.gradients_s().len()
                    &&& forall|g: int|
                        0 <= g < nb.gradients_s().len() ==> (#[trigger] nb.gradients_s()[
                            g
                        ]).0@ == ob.gradients_s()[g].0@ && fold_chain(
                            ob.gradients_s()[g].1,
                            nb.gradients_s()[g].1,
                            axes,
                        )
                },
            r matches Err(e) ==> exists|i: int|
                0 <= i < old(self).blocks_s().len() && (forall|k: int|
                    0 <= k < i ==> ctp_ok(
                        (#[trigger] old(self).blocks_s()[k]).values_s(),
                        variables.deep_view(),
                    )) && !ctp_ok(old(self).blocks_s()[i].values_s(), variables.deep_view())
                    && ctp_err(
                    #[trigger] old(self).blocks_s()[i],
                    variables.deep_view(),
                    e.text(),
                ),
    {
        if variables.len() == 0 {
            return Ok(());
        }
        let ghost vars = variables.deep_view();
        let n = self.blocks.len();
        let mut new_blocks: Vec<TensorBlock> = Vec::new();
        let mut i: usize = 0;
        while i < n
            invariant
                i <= n,
                n == self.blocks_s().len(),
                *self == *old(self),
                old(self).wf(),
                vars == variables.deep_view(),
                vars.len() > 0,
                new_blocks@.len() == i,
                forall|k: int|
                    0 <= k < i ==> ctp_ok(
                        (#[trigger] self.blocks_s()[k]).values_s(),
                        vars,
                    ) && {
                        let ob = self.blocks_s()[k];
                        let nb = new_blocks@[k];
                        let axes = marked_axes_from(ob.values_s(), vars, 0);
                        &&& nb.wf()
                        &&& fold_chain(ob.values_s(), nb.values_s(), axes)
                        &&& nb.gradients_s().len() == ob.gradients_s().len()
                        &&& forall|g: int|
                            0 <= g < nb.gradients_s().len() ==> (#[trigger] nb.gradients_s()[
                                g
                            ]).0@ == ob.gradients_s()[g].0@ && fold_chain(
                                ob.gradients_s()[g].1,
                                nb.gradients_s()[g].1,
                                axes,
                            )
                    },
            decreases n - i,
        {
            match block_components_to_properties(&self.blocks[i], variables) {
                Ok(nb) => {
                    new_blocks.push(nb);
                },
                Err(e) => {
                    proof {
                        assert(!ctp_ok(self.blocks_s()[i as int].values_s(), vars));
                        assert(ctp_err(self.blocks_s()[i as int], vars, e.text()));
                    }
                    return Err(e);
                },
            }
            i = i + 1;
        }
        proof {
            assert forall|ii: int|
                0 <= ii < new_blocks@.len() implies (#[trigger] new_blocks@[ii]).wf() by {
                let ob = self.blocks_s()[ii];
                assert(ctp_ok(ob.values_s(), vars));
            }
            // the folds act on axis names alone, and those agree across
            // blocks, so the folded blocks stay schema-consistent
            let nbv = new_blocks@;
            assert forall|i: int|
                0 <= i < nbv.len() implies block_schema_msg(#[trigger] nbv[i], nbv[0]) is None by {
                let ob_i = self.blocks_s()[i];
                let ob_0 = self.blocks_s()[0];
                let nb_i = nbv[i];
                let nb_0 = nbv[0];
                assert(ctp_ok(ob_i.values_s(), vars));
                assert(ctp_ok(ob_0.values_s(), vars));
                assert(ob_i.wf() && ob_0.wf());
                assert(block_schema_msg(ob_i, ob_0) is None);
                lemma_labels_check_none(ob_i.values_s(), ob_0.values_s(), Seq::empty());
                assert(same_axis_names(ob_i.values_s(), ob_0.values_s()));
                lemma_marked_axes_same_names(ob_i.values_s(), ob_0.values_s(), vars, 0);
                let axes = marked_axes_from(ob_0.values_s(), vars, 0);
                assert(marked_axes_from(ob_i.values_s(), vars, 0) == axes);
                lemma_marked_axes_props(ob_0.values_s(), vars, 0);
                let ncomps = ob_0.values_s().components_s().len() as int;
                assert forall|k: int|
                    0 <= k < axes.len() implies 0 <= #[trigger] axes[k] < ncomps - k by {
                    lemma_desc_axes_bound(axes, ncomps, k);
                }
                assert(fold_chain(ob_i.values_s(), nb_i.values_s(), axes));
                assert(fold_chain(ob_0.values_s(), nb_0.values_s(), axes));
                let mids_i = choose|m: Seq<BasicBlock>|
                    fold_chain_with(ob_i.values_s(), nb_i.values_s(), axes, m);
                let mids_0 = choose|m: Seq<BasicBlock>|
                    fold_chain_with(ob_0.values_s(), nb_0.values_s(), axes, m);
                lemma_chain_same_names(
                    ob_i.values_s(),
                    nb_i.values_s(),
                    ob_0.values_s(),
                    nb_0.values_s(),
                    axes,
                    mids_i,
                    mids_0,
                );
                lemma_labels_check_none(nb_i.values_s(), nb_0.values_s(), Seq::empty());
                assert(labels_check_msg(nb_i.values_s(), nb_0.values_s(), Seq::empty())
                    is None);
                assert(nb_i.values_s().properties_s().names_v()
                    == nb_0.values_s().properties_s().names_v());
                assert(nb_i.gradients_s().len() == nb_0.gradients_s().len());
                lemma_gradients_check_none(ob_i.gradients_s(), ob_0.gradients_s());
                assert forall|k: int|
                    0 <= k < nb_i.gradients_s().len() implies 0 <= find_gradient(
                        nb_0.gradients_s(),
                        (#[trigger] nb_i.gradients_s()[k]).0@,
                    ) < nb_0.gradients_s().len() && labels_check_msg(
                        nb_i.gradients_s()[k].1,
                        nb_0.gradients_s()[find_gradient(
                            nb_0.gradients_s(),
                            nb_i.gradients_s()[k].0@,
                        )].1,
                        grad_context(nb_i.gradients_s()[k].0@),
                    ) is None by {
                    let p = nb_i.gradients_s()[k].0@;
                    assert(p == ob_i.gradients_s()[k].0@);
                    assert forall|x: int|
                        0 <= x < nb_0.gradients_s().len() implies (
                        #[trigger] nb_0.gradients_s()[x]).0@ == ob_0.gradients_s()[x].0@ by {}
                    lemma_find_gradient_same_names(
                        nb_0.gradients_s(),
                        ob_0.gradients_s(),
                        p,
                    );
                    let r = find_gradient(ob_0.gradients_s(), p);
                    assert(0 <= r < ob_0.gradients_s().len());
                    assert(labels_check_msg(
                        ob_i.gradients_s()[k].1,
                        ob_0.gradients_s()[r].1,
                        grad_context(p),
                    ) is None);
                    lemma_labels_check_none(
                        ob_i.gradients_s()[k].1,
                        ob_0.gradients_s()[r].1,
                        grad_context(p),
                    );
                    assert(labels_sim(
                        ob_i.gradients_s()[k].1.properties_s(),
                        ob_i.values_s().properties_s(),
                    ));
                    assert(labels_sim(
                        ob_0.gradients_s()[r].1.properties_s(),
                        ob_0.values_s().properties_s(),
                    ));
                    assert(same_axis_names(ob_i.gradients_s()[k].1, ob_0.gradients_s()[r].1));
                    assert(ob_i.gradients_s()[k].1.components_s().len() == ncomps);
                    assert forall|kk: int|
                        0 <= kk < axes.len() implies 0 <= #[trigger] axes[kk]
                            < ob_i.gradients_s()[k].1.components_s().len() - kk by {
                        lemma_desc_axes_bound(axes, ncomps, kk);
                    }
                    assert(fold_chain(
                        ob_i.gradients_s()[k].1,
                        nb_i.gradients_s()[k].1,
                        axes,
                    ));
                    assert(fold_chain(
                        ob_0.gradients_s()[r].1,
                        nb_0.gradients_s()[r].1,
                        axes,
                    ));
                    let gm_i = choose|m: Seq<BasicBlock>|
                        fold_chain_with(
                            ob_i.gradients_s()[k].1,
                            nb_i.gradients_s()[k].1,
                            axes,
                            m,
                        );
                    let gm_0 = choose|m: Seq<BasicBlock>|
                        fold_chain_with(
                            ob_0.gradients_s()[r].1,
                            nb_0.gradients_s()[r].1,
                            axes,
                            m,
                        );
                    lemma_chain_same_names(
                        ob_i.gradients_s()[k].1,
                        nb_i.gradients_s()[k].1,
                        ob_0.gradients_s()[r].1,
                        nb_0.gradients_s()[r].1,
                        axes,
                        gm_i,
                        gm_0,
                    );
                    lemma_labels_check_none(
                        nb_i.gradients_s()[k].1,
                        nb_0.gradients_s()[r].1,
                        grad_context(p),
                    );
                }
                lemma_gradients_check_all_ok(nb_i.gradients_s(), nb_0.gradients_s());
                assert(gradients_check_msg(nb_i.gradients_s(), nb_0.gradients_s()) is None);
            }
            assert(blocks_consistent(nbv));
        }
        self.blocks = new_blocks;
        Ok(())
    }

    /// The blocks of this tensor map, in key order.
    pub fn blocks(&self) -> (r: &Vec<TensorBlock>)
        ensures
            r@ == self.blocks_s(),
    {
        &self.blocks
    }

    /// The keys of this tensor map.
    pub fn keys(&self) -> (r: &Labels)
        ensures
            *r == self.keys_s(),
    {
        &self.keys
    }

    /// The key rows paired with their blocks, in key order.
    pub fn iter(&self) -> (r: Vec<(Vec<i32>, &TensorBlock)>)
        requires
            self.wf(),
        ensures
            r@.len() == self.keys_s().count_v(),
            forall|k: int|
                0 <= k < r@.len() ==> (#[trigger] r@[k]).0.deep_view()
                    == self.keys_s().rows_v()[k] && r@[k].1 == &self.blocks_s()[k],
    {
        let mut r: Vec<(Vec<i32>, &TensorBlock)> = Vec::new();
        let n = self.keys.count();
        let mut i: usize = 0;
        while i < n
            invariant
                i <= n,
                self.wf(),
                n == self.keys_s().count_v(),
                r@.len() == i,
                forall|k: int|
                    0 <= k < i ==> (#[trigger] r@[k]).0.deep_view()
                        == self.keys_s().rows_v()[k] && r@[k].1 == &self.blocks_s()[k],
            decreases n - i,
        {
            let row = copy_row(self.keys.entry(i));
            r.push((row, &self.blocks[i]));
            i = i + 1;
        }
        r
    }

    /// Indices of the blocks matching the given selection, in key order.
    ///
    /// A selection with no columns matches every block. Otherwise it must
    /// hold exactly one row, and each of its column names must appear in
    /// the keys; a key row matches when it agrees with the selection on
    /// every selected column.
    pub fn find_matching_blocks(&self, selection: &Labels) -> (r: Result<Vec<usize>, Error>)
        requires
            self.wf(),
            selection.wf(),
        ensures
            (r is Ok) <==> selection_ok(self.keys_s(), *selection),
            r matches Ok(v) ==> v@ == matching_indices(self.keys_s(), *selection),
            selection.size_v() == 0 ==> (r matches Ok(v) && v@.len() == self.keys_s().count_v()
                && forall|k: int| 0 <= k < v@.len() ==> v@[k] == k),
            selection.size_v() > 0 && selection.count_v() != 1 ==> (r matches Err(e) && e.text()
                == msg_single_row(selection.count_v())),
            selection.size_v() > 0 && selection.count_v() == 1 && !selection_resolvable(
                self.keys_s(),
                *selection,
            ) ==> (r matches Err(e) && exists|j: int|
                0 <= j < selection.names_v().len() && (forall|k: int|
                    0 <= k < j ==> find_name(
                        self.keys_s().names_v(),
                        #[trigger] selection.names_v()[k],
                    ) >= 0) && find_name(self.keys_s().names_v(), selection.names_v()[j]) < 0
                    && e.text() == msg_unknown_name(selection.names_v()[j])),
    {
        let ghost keys_g = self.keys_s();
        let ghost sel_names = selection.names_v();
        let ghost sel_row = first_row(*selection);
        if selection.size() == 0 {
            let n = self.keys.count();
            let mut v: Vec<usize> = Vec::new();
            let mut i: usize = 0;
            while i < n
                invariant
                    i <= n,
                    n == keys_g.count_v(),
                    keys_g == self.keys_s(),
                    sel_names.len() == 0,
                    v@ == matching_prefix(keys_g, sel_names, sel_row, i as int),
                    v@.len() == i,
                    forall|k: int| 0 <= k < i ==> v@[k] == k,
                decreases n - i,
            {
                v.push(i);
                i = i + 1;
            }
            return Ok(v);
        }
        if selection.count() != 1 {
            let mut m = String::from_str("block selection labels must contain a single row, got ");
            let count = usize_string(selection.count());
            m.append(count.as_str());
            proof {
                assert(m@ =~= msg_single_row(selection.count_v()));
            }
            return Err(Error::invalid_parameter(m));
        }
        let mut variables: Vec<usize> = Vec::new();
        let nsel = selection.size();
        let mut j: usize = 0;
        while j < nsel
            invariant
                j <= nsel,
                nsel == sel_names.len(),
                nsel > 0,
                selection.count_v() == 1,
                sel_names == selection.names_v(),
                keys_g == self.keys_s(),
                variables@.len() == j,
                forall|k: int|
                    0 <= k < j ==> find_name(keys_g.names_v(), #[trigger] sel_names[k]) >= 0
                        && variables@[k] == find_name(keys_g.names_v(), sel_names[k]),
            decreases nsel - j,
        {
            match find_name_in(self.keys.names(), selection.name(j)) {
                Some(idx) => {
                    variables.push(idx);
                },
                None => {
                    let mut m = String::from_str("'");
                    m.append(selection.name(j).as_str());
                    m.append("' is not part of the keys for this tensor");
                    proof {
                        assert(m@ =~= msg_unknown_name(sel_names[j as int]));
                    }
                    return Err(Error::invalid_parameter(m));
                },
            }
            j = j + 1;
        }
        let nkeys = self.keys.count();
        let mut matching: Vec<usize> = Vec::new();
        let mut bi: usize = 0;
        while bi < nkeys
            invariant
                bi <= nkeys,
                nkeys == keys_g.count_v(),
                keys_g == self.keys_s(),
                keys_g.wf(),
                selection.wf(),
                selection.count_v() == 1,
                sel_names == selection.names_v(),
                sel_row == first_row(*selection),
                sel_row.len() == sel_names.len(),
                nsel == sel_names.len(),
                variables@.len() == nsel,
                forall|k: int|
                    0 <= k < nsel ==> find_name(keys_g.names_v(), #[trigger] sel_names[k]) >= 0
                        && variables@[k] == find_name(keys_g.names_v(), sel_names[k]),
                matching@ == matching_prefix(keys_g, sel_names, sel_row, bi as int),
            decreases nkeys - bi,
        {
            let key_row = self.keys.entry(bi);
            let sel_values = selection.entry(0);
            let mut selected = true;
            let mut vj: usize = 0;
            while vj < nsel
                invariant
                    vj <= nsel,
                    nsel == sel_names.len(),
                    keys_g == self.keys_s(),
                    keys_g.wf(),
                    bi < keys_g.count_v(),
                    key_row.deep_view() == keys_g.rows_v()[bi as int],
                    sel_values.deep_view() == sel_row,
                    sel_row.len() == sel_names.len(),
                    variables@.len() == nsel,
                    forall|k: int|
                        0 <= k < nsel ==> find_name(keys_g.names_v(), #[trigger] sel_names[k])
                            >= 0 && variables@[k] == find_name(keys_g.names_v(), sel_names[k]),
                    selected <==> forall|k: int|
                        0 <= k < vj ==> keys_g.rows_v()[bi as int][find_name(
                            keys_g.names_v(),
                            #[trigger] sel_names[k],
                        )] == sel_row[k],
                decreases nsel - vj,
            {
                proof {
                    lemma_find_name(keys_g.names_v(), sel_names[vj as int]);
                }
                if key_row[variables[vj]] != sel_values[vj] {
                    selected = false;
                    proof {
                        assert(keys_g.rows_v()[bi as int][find_name(
                            keys_g.names_v(),
                            sel_names[vj as int],
                        )] != sel_row[vj as int]);
                    }
                }
                vj = vj + 1;
            }
            if selected {
                matching.push(bi);
            }
            proof {
                assert(selected == row_matches(
                    keys_g.rows_v()[bi as int],
                    keys_g.names_v(),
                    sel_names,
                    sel_row,
                ));
                assert(matching@ == matching_prefix(keys_g, sel_names, sel_row, bi as int + 1));
            }
            bi = bi + 1;
        }
        Ok(matching)
    }

    /// References to the blocks matching the given selection, in key order.
    pub fn blocks_matching(&self, selection: &Labels) -> (r: Result<Vec<&TensorBlock>, Error>)
        requires
            self.wf(),
            selection.wf(),
        ensures
            (r is Ok) <==> selection_ok(self.keys_s(), *selection),
            r matches Ok(v) ==> {
                let m = matching_indices(self.keys_s(), *selection);
                &&& v@.len() == m.len()
                &&& forall|k: int| 0 <= k < m.len() ==> v@[k] == &self.blocks_s()[m[k] as int]
            },
            r matches Err(e) ==> self.find_matching_blocks_err_witness(*selection, e.text()),
    {
        let matching = match self.find_matching_blocks(selection) {
            Ok(m) => m,
            Err(e) => {
                return Err(e);
            },
        };
        proof {
            lemma_matching_prefix_bounds(
                self.keys_s(),
                selection.names_v(),
                first_row(*selection),
                self.keys_s().count_v(),
            );
        }
        let mut v: Vec<&TensorBlock> = Vec::new();
        let ghost m = matching_indices(self.keys_s(), *selection);
        let mut i: usize = 0;
        while i < matching.len()
            invariant
                i <= matching@.len(),
                matching@ == m,
                forall|k: int| 0 <= k < m.len() ==> 0 <= (#[trigger] m[k]) < self.blocks_s().len(),
                v@.len() == i,
                forall|k: int| 0 <= k < i ==> v@[k] == &self.blocks_s()[m[k] as int],
            decreases matching@.len() - i,
        {
            let idx = matching[i];
            v.push(&self.blocks[idx]);
            i = i + 1;
        }
        Ok(v)
    }

    /// Holds when an error with this text is one that
    /// [`Self::find_matching_blocks`] reports for this selection.
    pub open spec fn find_matching_blocks_err_witness(
        &self,
        selection: Labels,
        text: Seq<char>,
    ) -> bool {
        ||| (selection.size_v() > 0 && selection.count_v() != 1 && text == msg_single_row(
            selection.count_v(),
        ))
        ||| (selection.size_v() > 0 && selection.count_v() == 1 && exists|j: int|
            0 <= j < selection.names_v().len() && (forall|k: int|
                0 <= k < j ==> find_name(
                    self.keys_s().names_v(),
                    #[trigger] selection.names_v()[k],
                ) >= 0) && find_name(self.keys_s().names_v(), #[trigger] selection.names_v()[j])
                < 0 && text == msg_unknown_name(selection.names_v()[j]))
    }

    /// The single block matching the given selection.
    ///
    /// Fails, reporting the match count and the selection as `name = value`
    /// pairs, unless exactly one block matches.
    pub fn block(&self, selection: &Labels) -> (r: Result<&TensorBlock, Error>)
        requires
            self.wf(),
            selection.wf(),
        ensures
            (r is Ok) <==> (selection_ok(self.keys_s(), *selection) && matching_indices(
                self.keys_s(),
                *selection,
            ).len() == 1),
            r matches Ok(b) ==> matching_indices(self.keys_s(), *selection).len() == 1 && b
                == &self.blocks_s()[matching_indices(self.keys_s(), *selection)[0] as int],
            !selection_ok(self.keys_s(), *selection) ==> (r matches Err(e)
                && self.find_matching_blocks_err_witness(*selection, e.text())),
            selection_ok(self.keys_s(), *selection) && matching_indices(
                self.keys_s(),
                *selection,
            ).len() != 1 ==> (r matches Err(e) && e.text() == msg_matched_count(
                matching_indices(self.keys_s(), *selection).len() as int,
                selection_text(selection.names_v(), first_row(*selection)),
            )),
    {
        let matching = match self.find_matching_blocks(selection) {
            Ok(m) => m,
            Err(e) => {
                return Err(e);
            },
        };
        if matching.len() != 1 {
            let ghost sel_names = selection.names_v();
            let ghost sel_row = first_row(*selection);
            let ghost pair_texts = Seq::new(
                sel_names.len(),
                |j: int| sel_names[j] + " = "@ + dec_int(sel_row[j] as int),
            );
            let mut parts: Vec<String> = Vec::new();
            let nsel = selection.size();
            let mut j: usize = 0;
            while j < nsel
                invariant
                    j <= nsel,
                    nsel == sel_names.len(),
                    sel_names == selection.names_v(),
                    sel_row == first_row(*selection),
                    selection.wf(),
                    nsel > 0 ==> selection.count_v() == 1,
                    pair_texts == Seq::new(
                        sel_names.len(),
                        |j: int| sel_names[j] + " = "@ + dec_int(sel_row[j] as int),
                    ),
                    parts@.len() == j,
                    forall|k: int| 0 <= k < j ==> (#[trigger] parts@[k])@ == pair_texts[k],
                decreases nsel - j,
            {
                let mut pair = String::new();
                pair.append(selection.name(j).as_str());
                pair.append(" = ");
                let value = i64_string(selection.entry(0)[j] as i64);
                pair.append(value.as_str());
                proof {
                    assert(pair@ =~= pair_texts[j as int]);
                }
                parts.push(pair);
                j = j + 1;
            }
            let mut m = usize_string(matching.len());
            m.append(" blocks matched the selection (");
            let joined = join_comma(&parts);
            m.append(joined.as_str());
            m.append("), expected only one");
            proof {
                assert(parts.deep_view() =~= pair_texts);
                assert(m@ =~= msg_matched_count(
                    matching@.len() as int,
                    selection_text(sel_names, sel_row),
                ));
            }
            return Err(Error::invalid_parameter(m));
        }
        proof {
            lemma_matching_prefix_bounds(
                self.keys_s(),
                selection.names_v(),
                first_row(*selection),
                self.keys_s().count_v(),
            );
        }
        let idx = matching[0];
        Ok(&self.blocks[idx])
    }
}

fn find_name_in(names: &Vec<String>, target: &String) -> (r: Option<usize>)
    ensures
        r matches Some(i) ==> 0 <= find_name(names.deep_view(), target@) == i
            < names.deep_view().len(),
        r is None ==> find_name(names.deep_view(), target@) < 0,
{
    let mut i: usize = 0;
    while i < names.len()
        invariant
            i <= names@.len(),
            forall|k: int| 0 <= k < i ==> names.deep_view()[k] != target@,
        decreases names@.len() - i,
    {
        if names[i] == *target {
            proof {
                lemma_find_name(names.deep_view(), target@);
                assert(names.deep_view()[i as int] == target@);
            }
            return Some(i);
        }
        i = i + 1;
    }
    proof {
        lemma_find_name(names.deep_view(), target@);
        let f = find_name(names.deep_view(), target@);
        if f >= 0 {
            assert(names.deep_view()[f] == target@);
        }
    }
    None
}

} // verus!
