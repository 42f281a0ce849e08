# akasha_core

The core of a small trainer for GPT-2-scale language models, written in Rust and verified with
Verus.

- `src/` is the library. It decides everything that a run decides (which checkpoint to resume from,
  when to log, save and stop, which checkpoints to delete, where a step stands in the learning rate
  schedule), turns the corpus into training batches, and lays out the tensors and kernels of the
  dense and attention layers. Every function has a contract, and the laws that relate them
  (`law_*`) are proved.
- `app/` is ordinary Rust around it: files, the device, the prompt, floating point. It is generic
  over the tokenizer and the model.
- `tests/` runs the library, the outside crates included.

| module | what it holds |
| --- | --- |
| `text`, `utf8`, `order`, `binary32` | characters, chunked decoding, stable sorting, single precision by bits |
| `escape`, `pieces`, `data`, `convert` | cleaning, loading and batching a corpus; extracting one from table shards |
| `checkpoint`, `schedule`, `training` | the decisions of a training run |
| `chat`, `cli` | the prompt and the command line |
| `nn::plan` | plans of device work |
| `nn::linear`, `nn::attention` | plans of the layers |
| `nn::meaning`, `nn::attention_meaning`, `nn::causality` | what running a plan computes |
| `nn::attention_laws` | what holds of every attention layer |
