# witness

Columns of whole numbers, encoded and laid out in pages, and the plans that read
as little of them as an answer needs.

The library is verified with Verus. `src/access_compiler` holds the encodings, the
page format, the decoders, the facts that are derived of them, the plans that those
facts allow, and the ways to run a query. `src/study` holds the workloads, the
features, the schedules and the reports of the studies that measure it.

What the main parts state:

- `encode::encode`: the page and the decoder of a recipe, or why there is none.
  `roundtrip::law_decodes_what_was_encoded`: the decoder gives back every value.
  `soundness::law_nothing_else_is_decoded`: whatever the recipe and the values, a row
  that decodes has its value.
- `format`: a page is parsed exactly where its bytes state a layout.
  `readback::law_columns_read_back`: what was written is read.
  `damage::law_damaged_headers_are_refused`: one changed byte of a header is noticed.
- `layout::LayoutIr::closure`: the least set of bytes that holds what is asked and
  what that depends on.
- `invariants::derive_invariants`: the facts that a decoder, a layout and checked
  properties give. `truths::law_proved_facts_hold`: they hold of the values.
- `compiler::compile`: the plan of a query, step by step.
- `execute`: what a query answers, how many rows it decodes and what it reads.
  `answers::law_scans_answer_from_the_values`: the answer is that of the values.
  `soundness::law_executions_tell_the_truth`: so is every answer that is given.
  `accounts::law_fused_decodes_read_no_less`: decoding all rows reads no less than the
  query asks for.
- `static_baseline`, `static_queries`: decoders that are put together as types.
  `searches`: the searches find what a scan finds.
- `filters`: a filter by bounds searches, searches each block, or translates the bounds
  into identifiers, where the facts about the column allow it, and scans otherwise.
  `filter_laws::law_filters_follow_their_plans`: as its plan says.
  `filter_laws::law_filters_are_exact`, `law_filters_tell_the_truth`: it finds what a
  scan finds, and where the values are in order it decodes few rows.
  `filter_accounts::law_filters_read_no_more_than_scans`: it reads no more than a scan.
- `bit_reads`: packed values that are read together are those that are read one by one.
- `certificates`: blocks that are left out hold no match, and what is left is
  refined to the rows that match.
- `study::pipeline`: a filter of one column and a sum of another.
  `law_pipelines_are_exact`: they give the rows and the sum of the values.
- `study::shown`, `study::walkthrough`: facts, plans and a whole example as text.
- `schedule`: reads that cover what is needed, with no gap beyond the bound.

Outside crates do their work behind a few declared functions: `zstd` for frames,
`csv`, `parquet` and `orc-rust` for tables in other formats, which are written and read
back. Parquet and ORC files are read only as the library wrote them.

`tests` runs the library on values. `app` is the command line around it: files,
mappings, clocks and statistics.

    witness recipes
    witness encode|facts|compile|run '{"values": [...], "recipe": "...", "query": {...}}'
    witness pages
    witness baselines
    witness crossover
    witness storage RECIPE COLUMNS FILE...
    witness certificates COLUMNS FILE...
    witness document TABLE RECIPE...
    witness pipeline SELECTOR_RECIPE... VALUE_RECIPE... TABLE...
    witness summarize [DIRECTORY]
    witness claims [measure COLUMNS FILE...]
