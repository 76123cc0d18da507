use vstd::prelude::*;

verus! {

/// The (input, output) dimensions of each layer of a perceptron whose
/// input has `input_dim` values and whose layers have `layer_dims` neurons:
/// each layer takes what the layer before it gives.
pub open spec fn spec_layer_shapes(input_dim: usize, layer_dims: Seq<usize>) -> Seq<(usize, usize)> {
    Seq::new(
        layer_dims.len(),
        |i: int| (if i == 0 { input_dim } else { layer_dims[i - 1] }, layer_dims[i]),
    )
}

/// The (input, output) dimensions of the layers of a perceptron.
pub fn layer_shapes(input_dim: usize, layer_dims: &[usize]) -> (r: Vec<(usize, usize)>)
    ensures
        r@ == spec_layer_shapes(input_dim, layer_dims@),
        r@.len() == layer_dims@.len(),
        forall|i: int| 0 <= i < r@.len() ==> (#[trigger] r@[i]).1 == layer_dims@[i],
        forall|i: int| 0 < i < r@.len() ==> (#[trigger] r@[i]).0 == layer_dims@[i - 1],
        r@.len() > 0 ==> r@[0].0 == input_dim,
{
    proof {
        lemma_layer_widths(input_dim, layer_dims@);
    }
    let mut layers: Vec<(usize, usize)> = Vec::new();
    let mut temp_in_dim = input_dim;
    let mut i: usize = 0;
    while i < layer_dims.len()
        invariant
            i <= layer_dims@.len(),
            layers@ == spec_layer_shapes(input_dim, layer_dims@.subrange(0, i as int)),
            temp_in_dim == (if i == 0 { input_dim } else { layer_dims@[i - 1] }),
        decreases layer_dims@.len() - i,
    {
        let layer_dim = layer_dims[i];
        layers.push((temp_in_dim, layer_dim));
        temp_in_dim = layer_dim;
        i = i + 1;
        assert(layers@ =~= spec_layer_shapes(input_dim, layer_dims@.subrange(0, i as int)));
    }
    assert(layer_dims@.subrange(0, i as int) =~= layer_dims@);
    layers
}

/// Consecutive layers fit together: each layer's input dimension is the
/// output dimension of the layer before it, the first takes the input and
/// the last gives the perceptron's output.
pub proof fn lemma_layers_chain(input_dim: usize, layer_dims: Seq<usize>)
    requires
        layer_dims.len() > 0,
    ensures
        spec_layer_shapes(input_dim, layer_dims)[0].0 == input_dim,
        spec_layer_shapes(input_dim, layer_dims)[layer_dims.len() - 1].1 == layer_dims.last(),
        forall|i: int|
            0 < i < layer_dims.len() ==> (#[trigger] spec_layer_shapes(input_dim, layer_dims)[i]).0
                == spec_layer_shapes(input_dim, layer_dims)[i - 1].1,
{
}

/// There is one shape per requested layer; layer `i` gives exactly the
/// requested width `layer_dims[i]` and takes the input width, for the first
/// layer, or the width requested for the layer before it.
pub proof fn lemma_layer_widths(input_dim: usize, layer_dims: Seq<usize>)
    ensures
        spec_layer_shapes(input_dim, layer_dims).len() == layer_dims.len(),
        forall|i: int|
            0 <= i < layer_dims.len() ==> (#[trigger] spec_layer_shapes(input_dim, layer_dims)[i]).1
                == layer_dims[i],
        forall|i: int|
            0 < i < layer_dims.len() ==> (#[trigger] spec_layer_shapes(input_dim, layer_dims)[i]).0
                == layer_dims[i - 1],
        layer_dims.len() > 0 ==> spec_layer_shapes(input_dim, layer_dims)[0].0 == input_dim,
{
}

} // verus!
