# plato_e2e_pipeline

A pipeline for tiles, which are questions with their answers. A tile is validated, scored against a
query, compared with the tiles accepted before it, and stored as a version that can be found again:

    raw tile -> validate -> score -> dedup -> store -> search -> version -> cascade

The library under `src/` is written and proved in Verus.

| Module       | Holds                                                                       |
|--------------|-----------------------------------------------------------------------------|
| `tile`       | tiles, their provenance, and new tiles                                       |
| `validate`   | the four gates                                                               |
| `text`       | the words of a text                                                          |
| `score`      | the signals of a score and their weighted sum                                |
| `dedup`      | which tiles say the same                                                     |
| `store`      | every version of every tile                                                  |
| `version`    | what changed from one tile to another                                        |
| `cascade`    | which tiles build on which                                                   |
| `pipeline`   | all of it in one                                                             |
| `binary64`   | double precision numbers by their bits, with correctly rounded arithmetic    |
| `rounding`   | what these numbers are, and rounding to them                                 |
| `float_laws` | what holds of that arithmetic                                                |
| `clock`      | the time                                                                     |

A score leaves one thing to its caller: the power of one half that gives the temporal signal.
`Score::half_lives` is the exponent, and `Score::value` takes the power. `app/` does this with native
floating point numbers, and hands the hits of a search with their powers to `rank_by_score`.
