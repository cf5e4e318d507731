# strix_pipeline

The Strix corpus pipeline: it converts the Sparv export configuration of a
corpus into a Strix corpus configuration, cuts the corpus's XML texts into
parts, and writes the input of the document-vector transformer.

- `src/` is the library, verified with Verus: text utilities (`text`), a JSON
  value model with sorted objects (`json`), hash maps and sets (`hashed`), the
  XML event handlers, their driver and the walk of an XML text with `quick_xml` (`xmlparser`), the configuration
  conversion (`sparv_decoder`), the task list of a corpus (`insertdata`), the
  transformer input (`pipeline`), the configuration (`config`), the command
  line (`options`) and the YAML errors (`shared`). Calls into `serde_json`,
  `quick_xml`, `hashbrown`, `counter`, `capitalize`, `time` and parts of `std` go through
  small trusted wrappers whose contracts state what the library relies on.
- `app/` is the program around it: command-line parsing with `clap`, file
  and directory access, YAML with `serde_saphyr`, and the glob walk of the corpus directory.
- `tests/` runs the library on concrete values.
