# ml-runner

Sorts a folder of images into per-class folders with a YOLO classification model in ONNX format.
Images whose class is not sure enough go into `unsure`.

* `src/` is the library, verified with Verus: what a model's metadata says, how an image becomes
  the input of a model, which folder an image goes into, which files are sorted and under which
  names, how a model is found, cached and renewed, and when the program updates itself.
* `app/` is the program around it: arguments, files, network, ONNX Runtime and floating point.
* `tests/` run the library.

The functions of outside crates that the library relies on stand behind `external_body` functions
in `src/tensor.rs` and `src/archive.rs`; `src/text.rs` states what `String::push` does.
