# bigram_engine

A character-level bigram language model, split in two:

- `src/` is the verified library: the 30-symbol vocabulary (`vocab`), the
  cleaning of raw text lines (`text`), the loader that turns lines into
  bigram pairs and cuts them into batches (`loader`), the chaining of
  perceptron layer shapes (`mlp`) and the depth-first walk that orders the
  nodes of a computation graph for back-propagation (`topo`), and the
  lines of the DOT drawing of such a graph (`graph`).
- `app/` is the program around it: file reading, the `f32` autograd engine and the rendering of
  drawing lines as text
  (values, tensors, neurons, layers, models) and the training loop.
