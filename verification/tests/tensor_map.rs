use tensormap::{ArrayData, Labels, LabelsBuilder, TensorBlock, TensorMap};

fn example_labels(name: &str, count: usize) -> Labels {
    let mut labels = LabelsBuilder::new(vec![name.to_string()]).unwrap();
    for i in 0..count {
        labels.add(vec![i as i32]).unwrap();
    }
    labels.finish()
}

fn example_array(shape: Vec<usize>) -> ArrayData {
    let mut n: usize = 1;
    for d in &shape {
        n *= *d;
    }
    ArrayData::new(shape, vec![0; n]).unwrap()
}

#[test]
fn blocks_validation() {
    let block_1 = TensorBlock::new(
        example_array(vec![1, 1, 1]),
        example_labels("samples", 1),
        vec![example_labels("components", 1)],
        example_labels("properties", 1),
    )
    .unwrap();

    let block_2 = TensorBlock::new(
        example_array(vec![2, 3, 1]),
        example_labels("samples", 2),
        vec![example_labels("components", 3)],
        example_labels("properties", 1),
    )
    .unwrap();

    let result = TensorMap::new(example_labels("keys", 2), vec![block_1, block_2]);
    assert!(result.is_ok());

    /**********************************************************************/
    let block_1 = TensorBlock::new(
        example_array(vec![1, 1]),
        example_labels("samples", 1),
        vec![],
        example_labels("properties", 1),
    )
    .unwrap();

    let block_2 = TensorBlock::new(
        example_array(vec![2, 1]),
        example_labels("something_else", 2),
        vec![],
        example_labels("properties", 1),
    )
    .unwrap();

    let result = TensorMap::new(example_labels("keys", 2), vec![block_1, block_2]);
    assert_eq!(
        result.unwrap_err().message(),
        "invalid parameter: all blocks must have the same sample label \
        names, got [something_else] and [samples]"
    );

    /**********************************************************************/
    let block_1 = TensorBlock::new(
        example_array(vec![1, 1, 1]),
        example_labels("samples", 1),
        vec![example_labels("components", 1)],
        example_labels("properties", 1),
    )
    .unwrap();

    let block_2 = TensorBlock::new(
        example_array(vec![2, 1]),
        example_labels("samples", 2),
        vec![],
        example_labels("properties", 1),
    )
    .unwrap();

    let result = TensorMap::new(example_labels("keys", 2), vec![block_1, block_2]);
    assert_eq!(
        result.unwrap_err().message(),
        "invalid parameter: all blocks must contains the same set of \
        components, the current block has 0 components while the first \
        block has 1"
    );

    /**********************************************************************/
    let block_1 = TensorBlock::new(
        example_array(vec![1, 1, 1]),
        example_labels("samples", 1),
        vec![example_labels("components", 1)],
        example_labels("properties", 1),
    )
    .unwrap();

    let block_2 = TensorBlock::new(
        example_array(vec![2, 3, 1]),
        example_labels("samples", 2),
        vec![example_labels("something_else", 3)],
        example_labels("properties", 1),
    )
    .unwrap();

    let result = TensorMap::new(example_labels("keys", 2), vec![block_1, block_2]);
    assert_eq!(
        result.unwrap_err().message(),
        "invalid parameter: all blocks must have the same component label \
        names, got [something_else] and [components]"
    );

    /**********************************************************************/
    let block_1 = TensorBlock::new(
        example_array(vec![1, 1]),
        example_labels("samples", 1),
        vec![],
        example_labels("properties", 1),
    )
    .unwrap();

    let block_2 = TensorBlock::new(
        example_array(vec![2, 1]),
        example_labels("samples", 2),
        vec![],
        example_labels("something_else", 1),
    )
    .unwrap();

    let result = TensorMap::new(example_labels("keys", 2), vec![block_1, block_2]);
    assert_eq!(
        result.unwrap_err().message(),
        "invalid parameter: all blocks must have the same property label \
        names, got [something_else] and [properties]"
    );
}

#[test]
fn keys_and_blocks_are_kept() {
    let block = TensorBlock::new(
        example_array(vec![3, 1]),
        example_labels("samples", 3),
        vec![],
        example_labels("properties", 1),
    )
    .unwrap();
    let tensor = TensorMap::new(example_labels("keys", 1), vec![block]).unwrap();
    assert_eq!(tensor.keys().names()[0], "keys");
    assert_eq!(tensor.keys().count(), 1);
    assert_eq!(tensor.blocks().len(), 1);
    assert_eq!(tensor.iter().len(), 1);
    assert_eq!(tensor.iter()[0].0, vec![0]);
}

#[test]
fn block_count_must_match_keys() {
    let block = TensorBlock::new(
        example_array(vec![1, 1]),
        example_labels("samples", 1),
        vec![],
        example_labels("properties", 1),
    )
    .unwrap();
    let result = TensorMap::new(example_labels("keys", 2), vec![block]);
    assert_eq!(
        result.unwrap_err().message(),
        "invalid parameter: expected the same number of blocks (2) as the \
        number of entries in the keys when creating a tensor, got 1"
    );
}

fn two_block_map() -> TensorMap {
    let block_1 = TensorBlock::new(
        example_array(vec![1, 1]),
        example_labels("samples", 1),
        vec![],
        example_labels("properties", 1),
    )
    .unwrap();
    let block_2 = TensorBlock::new(
        example_array(vec![2, 1]),
        example_labels("samples", 2),
        vec![],
        example_labels("properties", 1),
    )
    .unwrap();
    TensorMap::new(example_labels("keys", 2), vec![block_1, block_2]).unwrap()
}

#[test]
fn empty_selection_matches_all_blocks() {
    let tensor = two_block_map();
    let selection = LabelsBuilder::new(vec![]).unwrap().finish();
    let matching = tensor.blocks_matching(&selection).unwrap();
    assert_eq!(matching.len(), 2);
    assert_eq!(matching[0].values().samples().count(), 1);
    assert_eq!(matching[1].values().samples().count(), 2);
}

#[test]
fn selection_must_be_a_single_row() {
    let tensor = two_block_map();
    let selection = example_labels("keys", 2);
    let result = tensor.blocks_matching(&selection);
    assert_eq!(
        result.unwrap_err().message(),
        "invalid parameter: block selection labels must contain a single row, got 2"
    );
}

#[test]
fn selection_names_must_be_key_names() {
    let tensor = two_block_map();
    let mut builder = LabelsBuilder::new(vec!["something_else".to_string()]).unwrap();
    builder.add(vec![0]).unwrap();
    let selection = builder.finish();
    let result = tensor.blocks_matching(&selection);
    assert_eq!(
        result.unwrap_err().message(),
        "invalid parameter: 'something_else' is not part of the keys for this tensor"
    );
}

#[test]
fn single_block_selection() {
    let tensor = two_block_map();
    let mut builder = LabelsBuilder::new(vec!["keys".to_string()]).unwrap();
    builder.add(vec![1]).unwrap();
    let selection = builder.finish();
    let block = tensor.block(&selection).unwrap();
    assert_eq!(block.values().samples().count(), 2);
}

#[test]
fn single_block_selection_needs_exactly_one_match() {
    let tensor = two_block_map();
    let mut builder = LabelsBuilder::new(vec!["keys".to_string()]).unwrap();
    builder.add(vec![7]).unwrap();
    let selection = builder.finish();
    let result = tensor.block(&selection);
    assert_eq!(
        result.unwrap_err().message(),
        "invalid parameter: 0 blocks matched the selection (keys = 7), expected only one"
    );

    let selection = LabelsBuilder::new(vec![]).unwrap().finish();
    let result = tensor.block(&selection);
    assert_eq!(
        result.unwrap_err().message(),
        "invalid parameter: 2 blocks matched the selection (), expected only one"
    );
}

#[test]
fn labels_builder_rejects_bad_input() {
    let result = LabelsBuilder::new(vec!["a".to_string(), "a".to_string()]);
    assert_eq!(
        result.unwrap_err().message(),
        "invalid parameter: labels names must be unique, got 'a' twice"
    );

    let mut builder = LabelsBuilder::new(vec!["a".to_string(), "b".to_string()]).unwrap();
    let result = builder.add(vec![0]);
    assert_eq!(
        result.unwrap_err().message(),
        "invalid parameter: invalid size for the new entry: expected 2 values, got 1"
    );

    builder.add(vec![0, 1]).unwrap();
    let result = builder.add(vec![0, 1]);
    assert_eq!(
        result.unwrap_err().message(),
        "invalid parameter: duplicate entry [0, 1] in labels"
    );
}

#[test]
fn array_data_must_match_its_shape() {
    let result = ArrayData::new(vec![2, 3], vec![0; 5]);
    assert_eq!(
        result.unwrap_err().message(),
        "invalid parameter: the array data has 5 elements, which does not match the given shape"
    );
    let array = ArrayData::new(vec![2, 3], vec![1; 6]).unwrap();
    assert_eq!(array.shape(), &vec![2, 3]);
    assert_eq!(array.data().len(), 6);
    assert!(ArrayData::new(vec![2, 0, 3], vec![]).is_ok());
}

#[test]
fn components_to_properties_with_no_names_is_a_no_op() {
    let mut tensor = two_block_map();
    tensor.components_to_properties(&vec![]).unwrap();
    assert_eq!(tensor.keys().count(), 2);
    assert_eq!(tensor.blocks().len(), 2);
    assert_eq!(tensor.blocks()[0].values().properties().names()[0], "properties");
    assert_eq!(tensor.blocks()[0].values().data().data(), &vec![0]);
}

#[test]
fn components_to_properties_moves_an_axis() {
    let mut samples = LabelsBuilder::new(vec!["s".to_string()]).unwrap();
    samples.add(vec![0]).unwrap();
    let mut c1 = LabelsBuilder::new(vec!["c1".to_string()]).unwrap();
    c1.add(vec![0]).unwrap();
    c1.add(vec![1]).unwrap();
    let mut c2 = LabelsBuilder::new(vec!["c2".to_string()]).unwrap();
    c2.add(vec![0]).unwrap();
    c2.add(vec![1]).unwrap();
    let mut properties = LabelsBuilder::new(vec!["p".to_string()]).unwrap();
    properties.add(vec![10]).unwrap();
    properties.add(vec![11]).unwrap();

    let data = ArrayData::new(vec![1, 2, 2, 2], (0..8).collect()).unwrap();
    let block = TensorBlock::new(
        data,
        samples.finish(),
        vec![c1.finish(), c2.finish()],
        properties.finish(),
    )
    .unwrap();
    let mut keys = LabelsBuilder::new(vec!["keys".to_string()]).unwrap();
    keys.add(vec![0]).unwrap();
    let mut tensor = TensorMap::new(keys.finish(), vec![block]).unwrap();

    tensor.components_to_properties(&vec!["c1".to_string()]).unwrap();

    let block = &tensor.blocks()[0];
    assert_eq!(block.values().components().len(), 1);
    assert_eq!(block.values().components()[0].names()[0], "c2");
    let new_properties = block.values().properties();
    assert_eq!(new_properties.names(), &vec!["c1".to_string(), "p".to_string()]);
    assert_eq!(new_properties.count(), 4);
    assert_eq!(new_properties.entry(0), &vec![0, 10]);
    assert_eq!(new_properties.entry(1), &vec![0, 11]);
    assert_eq!(new_properties.entry(2), &vec![1, 10]);
    assert_eq!(new_properties.entry(3), &vec![1, 11]);
    assert_eq!(block.values().data().shape(), &vec![1, 2, 4]);
    // element (s, c2, c1, p) of the input becomes element (s, c2, c1 * 2 + p)
    assert_eq!(block.values().data().data(), &vec![0, 1, 4, 5, 2, 3, 6, 7]);
}

#[test]
fn components_to_properties_needs_a_component_name() {
    let mut tensor = two_block_map();
    let result = tensor.components_to_properties(&vec!["missing".to_string()]);
    assert_eq!(
        result.unwrap_err().message(),
        "invalid parameter: 'missing' is not part of the components of this block"
    );
    // the failed call left the map unchanged
    assert_eq!(tensor.blocks().len(), 2);
}

#[test]
fn gradients_must_match_across_blocks() {
    let mut block_1 = TensorBlock::new(
        example_array(vec![1, 1]),
        example_labels("samples", 1),
        vec![],
        example_labels("properties", 1),
    )
    .unwrap();
    let gradient = tensormap::BasicBlock::new(
        example_array(vec![2, 1]),
        example_labels("sample", 2),
        vec![],
        example_labels("properties", 1),
    )
    .unwrap();
    block_1.add_gradient("foo".to_string(), gradient).unwrap();

    let block_2 = TensorBlock::new(
        example_array(vec![2, 1]),
        example_labels("samples", 2),
        vec![],
        example_labels("properties", 1),
    )
    .unwrap();

    let result = TensorMap::new(example_labels("keys", 2), vec![block_1, block_2]);
    assert_eq!(
        result.unwrap_err().message(),
        "invalid parameter: all blocks must contains the same set of gradients"
    );
}

#[test]
fn gradient_parameters_are_unique() {
    let mut block = TensorBlock::new(
        example_array(vec![1, 1]),
        example_labels("samples", 1),
        vec![],
        example_labels("properties", 1),
    )
    .unwrap();
    let gradient = tensormap::BasicBlock::new(
        example_array(vec![2, 1]),
        example_labels("sample", 2),
        vec![],
        example_labels("properties", 1),
    )
    .unwrap();
    block.add_gradient("foo".to_string(), gradient.clone()).unwrap();
    let result = block.add_gradient("foo".to_string(), gradient);
    assert_eq!(
        result.unwrap_err().message(),
        "invalid parameter: gradient with respect to 'foo' already exists in this block"
    );
}

#[test]
fn gradient_schema_must_match_the_block() {
    let mut block = TensorBlock::new(
        example_array(vec![1, 1]),
        example_labels("samples", 1),
        vec![],
        example_labels("properties", 1),
    )
    .unwrap();
    let gradient = tensormap::BasicBlock::new(
        example_array(vec![2, 2]),
        example_labels("sample", 2),
        vec![],
        example_labels("something_else", 2),
    )
    .unwrap();
    let result = block.add_gradient("foo".to_string(), gradient);
    assert_eq!(
        result.unwrap_err().message(),
        "invalid parameter: gradient components and properties must match the block's own"
    );
}

#[test]
fn gradients_must_use_the_same_parameters() {
    let mut block_1 = TensorBlock::new(
        example_array(vec![1, 1]),
        example_labels("samples", 1),
        vec![],
        example_labels("properties", 1),
    )
    .unwrap();
    let gradient_1 = tensormap::BasicBlock::new(
        example_array(vec![2, 1]),
        example_labels("sample", 2),
        vec![],
        example_labels("properties", 1),
    )
    .unwrap();
    block_1.add_gradient("foo".to_string(), gradient_1).unwrap();

    let mut block_2 = TensorBlock::new(
        example_array(vec![2, 1]),
        example_labels("samples", 2),
        vec![],
        example_labels("properties", 1),
    )
    .unwrap();
    let gradient_2 = tensormap::BasicBlock::new(
        example_array(vec![2, 1]),
        example_labels("sample", 2),
        vec![],
        example_labels("properties", 1),
    )
    .unwrap();
    block_2.add_gradient("bar".to_string(), gradient_2).unwrap();

    let result = TensorMap::new(example_labels("keys", 2), vec![block_1, block_2]);
    assert_eq!(
        result.unwrap_err().message(),
        "invalid parameter: missing gradient with respect to bar in one of the blocks"
    );
}

#[test]
fn component_axes_move_whole() {
    let mut samples = LabelsBuilder::new(vec!["s".to_string()]).unwrap();
    samples.add(vec![0]).unwrap();
    let mut axis = LabelsBuilder::new(vec!["c1".to_string(), "c2".to_string()]).unwrap();
    axis.add(vec![0, 0]).unwrap();
    axis.add(vec![1, 1]).unwrap();
    let mut properties = LabelsBuilder::new(vec!["p".to_string()]).unwrap();
    properties.add(vec![0]).unwrap();

    let data = ArrayData::new(vec![1, 2, 1], vec![5, 6]).unwrap();
    let block =
        TensorBlock::new(data, samples.finish(), vec![axis.finish()], properties.finish())
            .unwrap();
    let mut keys = LabelsBuilder::new(vec!["keys".to_string()]).unwrap();
    keys.add(vec![0]).unwrap();
    let mut tensor = TensorMap::new(keys.finish(), vec![block]).unwrap();

    let result = tensor.components_to_properties(&vec!["c1".to_string()]);
    assert_eq!(
        result.unwrap_err().message(),
        "invalid parameter: moving a component axis to the properties requires all its \
        columns, 'c2' is missing from the list"
    );

    tensor
        .components_to_properties(&vec!["c1".to_string(), "c2".to_string()])
        .unwrap();
    let block = &tensor.blocks()[0];
    assert_eq!(block.values().components().len(), 0);
    assert_eq!(
        block.values().properties().names(),
        &vec!["c1".to_string(), "c2".to_string(), "p".to_string()]
    );
    assert_eq!(block.values().properties().entry(0), &vec![0, 0, 0]);
    assert_eq!(block.values().properties().entry(1), &vec![1, 1, 0]);
    assert_eq!(block.values().data().data(), &vec![5, 6]);
}

#[test]
fn components_to_properties_rejects_name_collisions() {
    let mut samples = LabelsBuilder::new(vec!["s".to_string()]).unwrap();
    samples.add(vec![0]).unwrap();
    let mut axis = LabelsBuilder::new(vec!["p".to_string()]).unwrap();
    axis.add(vec![0]).unwrap();
    let mut properties = LabelsBuilder::new(vec!["p".to_string()]).unwrap();
    properties.add(vec![0]).unwrap();

    let data = ArrayData::new(vec![1, 1, 1], vec![0]).unwrap();
    let block =
        TensorBlock::new(data, samples.finish(), vec![axis.finish()], properties.finish())
            .unwrap();
    let mut keys = LabelsBuilder::new(vec!["keys".to_string()]).unwrap();
    keys.add(vec![0]).unwrap();
    let mut tensor = TensorMap::new(keys.finish(), vec![block]).unwrap();

    let result = tensor.components_to_properties(&vec!["p".to_string()]);
    assert_eq!(
        result.unwrap_err().message(),
        "invalid parameter: moving the components to the properties would duplicate the \
        column named 'p'"
    );
}

#[test]
fn components_to_properties_reshapes_gradients() {
    let mut samples = LabelsBuilder::new(vec!["s".to_string()]).unwrap();
    samples.add(vec![0]).unwrap();
    let mut axis = LabelsBuilder::new(vec!["c".to_string()]).unwrap();
    axis.add(vec![0]).unwrap();
    axis.add(vec![1]).unwrap();
    let mut properties = LabelsBuilder::new(vec!["p".to_string()]).unwrap();
    properties.add(vec![0]).unwrap();

    let data = ArrayData::new(vec![1, 2, 1], vec![1, 2]).unwrap();
    let mut block = TensorBlock::new(
        data,
        samples.finish(),
        vec![axis.finish()],
        properties.finish(),
    )
    .unwrap();

    let mut grad_samples = LabelsBuilder::new(vec!["sample".to_string()]).unwrap();
    grad_samples.add(vec![0]).unwrap();
    grad_samples.add(vec![1]).unwrap();
    grad_samples.add(vec![2]).unwrap();
    let mut grad_axis = LabelsBuilder::new(vec!["c".to_string()]).unwrap();
    grad_axis.add(vec![0]).unwrap();
    grad_axis.add(vec![1]).unwrap();
    let mut grad_properties = LabelsBuilder::new(vec!["p".to_string()]).unwrap();
    grad_properties.add(vec![0]).unwrap();
    let grad_data = ArrayData::new(vec![3, 2, 1], vec![10, 11, 12, 13, 14, 15]).unwrap();
    let gradient = tensormap::BasicBlock::new(
        grad_data,
        grad_samples.finish(),
        vec![grad_axis.finish()],
        grad_properties.finish(),
    )
    .unwrap();
    block.add_gradient("positions".to_string(), gradient).unwrap();

    let mut keys = LabelsBuilder::new(vec!["keys".to_string()]).unwrap();
    keys.add(vec![0]).unwrap();
    let mut tensor = TensorMap::new(keys.finish(), vec![block]).unwrap();

    tensor.components_to_properties(&vec!["c".to_string()]).unwrap();
    let block = &tensor.blocks()[0];
    assert_eq!(block.values().data().shape(), &vec![1, 2]);
    assert_eq!(block.values().data().data(), &vec![1, 2]);
    let (name, gradient) = &block.gradients()[0];
    assert_eq!(name, "positions");
    assert_eq!(gradient.data().shape(), &vec![3, 2]);
    assert_eq!(gradient.data().data(), &vec![10, 11, 12, 13, 14, 15]);
    assert_eq!(
        gradient.properties().names(),
        &vec!["c".to_string(), "p".to_string()]
    );
    assert_eq!(gradient.samples().count(), 3);
}

#[test]
fn partial_selections_treat_missing_columns_as_wildcards() {
    let mut keys = LabelsBuilder::new(vec!["a".to_string(), "b".to_string()]).unwrap();
    keys.add(vec![0, 0]).unwrap();
    keys.add(vec![0, 1]).unwrap();
    keys.add(vec![1, 0]).unwrap();
    keys.add(vec![1, 1]).unwrap();

    let mut blocks = Vec::new();
    for i in 0..4 {
        blocks.push(
            TensorBlock::new(
                example_array(vec![i + 1, 1]),
                example_labels("samples", i + 1),
                vec![],
                example_labels("properties", 1),
            )
            .unwrap(),
        );
    }
    let tensor = TensorMap::new(keys.finish(), blocks).unwrap();

    let mut selection = LabelsBuilder::new(vec!["a".to_string()]).unwrap();
    selection.add(vec![1]).unwrap();
    let matching = tensor.blocks_matching(&selection.finish()).unwrap();
    assert_eq!(matching.len(), 2);
    assert_eq!(matching[0].values().samples().count(), 3);
    assert_eq!(matching[1].values().samples().count(), 4);

    let mut selection = LabelsBuilder::new(vec!["b".to_string(), "a".to_string()]).unwrap();
    selection.add(vec![1, 0]).unwrap();
    let block = tensor.block(&selection.finish()).unwrap();
    assert_eq!(block.values().samples().count(), 2);
}
