# osu-difficulty-lab

A verified library that analyzes osu!mania beatmaps with 4, 6 or 7 keys, and a
command line that keeps the results in a local data set.

There are two analyses of a beatmap file.

* The feature analysis (`analyzer`) reads the file, gathers its events into rows
  (`timeline`), says what each row asks of the hands (`strain`), and sums the
  rows up (`features`).
* The pattern analysis (`mma`) brings the file to a clock rate (`rate`), reads it
  as a chart (`parser`, `board`), compares neighbouring rows (`primitives`),
  matches them against known patterns (`patterns`, `hold_patterns`, `finder`),
  gathers the matches into clusters by tempo (`clustering`), tells what the chart
  is (`summary`, `velocity`), and describes how it runs (`profile`).

Beside them stand the rules of the data set: which records are sound (`record`,
`binary32`), what a store does with them (`storage`), what a run does with each
file (`reanalysis`), and how far a batch of downloads is (`downloads`).

## Numbers

The library computes exactly. Times of a file count ticks, of which a millisecond
has 10^12; digits beyond the last tick are dropped. Numbers reach to 10^16
either way, further than the integers that double precision tells apart; a larger
number counts as that limit, and only numbers that are infinite in double
precision are told from large ones. Times of the feature analysis after a clock
rate count thirds of ticks. Shares, speeds and densities are quotients of
integers, and sums and products that no machine word holds are natural numbers of
any size (`big`) or wide integers (`wide`). What needs roots, powers or
logarithms is left to `app/measures.rs` and `app/similarity.rs`.

## What is proved

Every function states what it returns over spec functions in the same module.
Public proof functions whose names start with `law_` state what holds of several
functions together: that mirrored and shifted charts and files have the same
features (`symmetry`, `reflection`), what plain charts show (`plain`), that shifted
charts have the same patterns (`shifting`), which files can be read at all
(`beatmap`), that a file at a clock rate keeps its lines and is
analyzed as the file moved to that rate (`rate`, `moving`), that every hold of a
chart stands from its head to its tail (`held`), that rows lie apart and hold
every event (`timeline`), that coverage is a share of the chart (`profile`), that
an analyzed file is passed over until it changes (`reanalysis`), and others.

Four functions rest on code outside the library, as their comments say:
`text::string_of`, `codec::read_text`, `codec::digest` and `codec::hex_string`.

## Layout

* `src/` holds the library.
* `tests/` holds its tests.
* `app/` holds the command line, the store and the floating-point formulas.
