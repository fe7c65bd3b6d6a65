# keyswitch

Keyboard layout switching between QWERTY and JCUKEN, verified with Verus.

- `src/layout.rs` — the key mapping in both directions, retyping a token and
  detecting the layout it was typed in; the two tables are proved inverse.
- `src/text.rs` — tokenization into lowercased letter runs and normalization.
- `src/ngram.rs` — the counts of a character n-gram model (training, and the
  counts that scoring reads).
- `src/register.rs` — technical and everyday word frequencies for judging the
  register of a context.
- `src/eval.rs` — confusion counts, the split of a corpus by word type, and the
  hypotheses a switch decision weighs.
- `src/collisions.rs` — word frequency tables and layout collisions between two
  dictionaries.
- `src/context_corpus.rs` — rendering of the bracket-annotated context corpus.
- `src/counting.rs` — occurrence counting shared by the models.

`app/` holds the command-line tools: corpus reading, the floating-point scoring
(n-gram interpolation, the register log-ratio, the linear model) and the reports.
