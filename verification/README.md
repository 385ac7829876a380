# recentlydivorced

Labels every top-level human CLI conversation for the Codex `/resume` index.

The library under `src/` holds the rules, each with a contract proved by
Verus:

- `chars`: whitespace, words, joining and searching on character vectors;
- `text`: squashing text, normalising model labels, recognising injected
  prompts, stripping images, reading CompactVeteran handoffs and building
  provisional activity labels;
- `partial` and `evidence`: the evidence ladder from a rollout tail to the
  capsule and activity a conversation is labelled from;
- `refresh`: whether a cached label is kept, seeded or relabelled;
- `jobs` and `resilient`: batching jobs for the models, the labelling prompt,
  accepting a model answer, and splitting failed calls;
- `graph`, `hooks`, `install`, `runtime`: the GraphFather context, trusting
  hooks, locating the installation, and the runtime's small decisions.

`app/` is the program around it: command dispatch, files, SQLite, processes
and JSON.
