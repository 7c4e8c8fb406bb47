# llama-matrix

Measure how much memory each model of a llama-swap server really uses, and generate the
co-residency `matrix:` block that lets as many of them run at once as physically fit, without
ever declaring a combination that does not.

`llama-matrix --llm` prints how it is used and what it holds to.

## The library

The library is written in Verus. What it computes is stated in `requires` and `ensures` and
proved; what it promises as a whole is stated in the public `law_*` proof functions.

### Layout

- `src/`: the verified library.
  - `model`, `param_hash`, `config`: the roster. What a launch command says of a model, and the
    key of its footprint.
  - `policy`, `settings`: the operator's policy and its scalar settings.
  - `cache`: the measurement store.
  - `measure`, `sampling`, `serving`, `probe`, `platform`, `validate`: the decisions of a sweep,
    between loading a model, reading a sensor and asking llama-swap.
  - `units`, `packing`, `narrowing`, `plan`, `build`, `resolve`, `cram`, `alternatives`: from
    footprints to the sets that are declared. `plan` says what they are; `build` computes them.
  - `laws`, `coverage`, `choices`, `naming`: what every plan promises.
  - `matrix`, `apply`: the block as text, and its place in a config.
  - `report`, `commands`, `ui`: what each verb reports.
  - `number`, `text`, `tables`: amounts, strings and tables.
- `app/`: the program: files, sensors, HTTP and the command line.
- `tests/`: the library's tests.

### Amounts

An amount of memory is an integer: a unit is a millionth of a MiB, so a GB is 1 024 000 000 of
them. Every number of MiB, and every number of GB with up to two decimals, is exact. The program
converts where it reads and writes GB.

## Settings

| key | type | default |
|---|---|---|
| `config` | string (path) | `config.yaml` |
| `endpoint` | string (URL) | `http://localhost:8080` |
| `budget` | float (GB) | the detected total |
| `margin` | float (GB) | `4.0` |
| `host_budget` | float (GB) | the host total that `measure` recorded |
| `host_margin` | float (GB) | `4.0` |
| `host_cache_gb` | float (GB) | `8.0` |
| `on_host_overflow` | `warn`, `exclude`, `error` | `warn` |
| `strategy` | `flat`, `family` | `flat` |
| `on_overflow` | `group`, `error` | `group` |
| `on_unconfirmed` | `warn`, `exclude`, `error` | `warn` |
| `probe_image_size` | string `WxH` | `1024x1024` |

`llama-matrix.toml` also has tables, which are edited by hand and which `configure` leaves alone:
`[paths]` maps weight directories inside a container to those outside, `[roles]` names the models
that ride along with every set (`aux`) and those that generate pictures (`images`), `[groups]`
names models that exclude each other where the strategy goes by families, `[types]` says what a
model is where its command does not show it, and `[evict_costs]` says how dear it is to evict a
role or a model.

Two caps stand beside the scalars, and are edited by hand too: `max_models_per_set` bounds how many
models a declared set may load at once, ride-alongs included, and `max_cache_holders_per_set` how
many of them may hold a prompt cache. Without them a set is as large as fits.
