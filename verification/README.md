# prsync

`prsync` pulls a tree from a remote to a local directory, in parallel and
resumably. `src/` is the library: what a sync decides and computes, with every
function verified by Verus against its contract. `app/` is the program around
it: the command line, files, threads and the S3 client.

## The library

- `remote`: how a source is named (`s3://bucket/prefix`, `[user@]host:[port:]path`
  or a local path), and the entries found in one
- `s3`: keys and paths below a prefix, pages of a listing, requests; `listing`
  states and proves what a whole listing yields
- `config`: command line, environment, configuration file and defaults, in that
  order
- `block_delta`: block-level transfers. `machine` is the transfer as a state
  machine: it hands out actions and takes their outcomes as events. `outcome`
  states and proves what a whole transfer does
- `delta`: delta plans. `patch` applies a plan as a state machine; `rebuild`
  states and proves what it yields
- `state`: what is remembered of the blocks of each file
- `hashing`, `numerals`, `text`: digests, numbers and strings

Laws that relate several functions are proof functions whose names begin with
`law_`. The hash functions and the base64 decoder come from their crates; what
is believed of them stands in the contracts of the functions marked
`external_body`.

## Usage

```bash
prsync -vrPu s3://bucket/prefix /local/destination
prsync -vrPu --jobs 16 --chunk-size 16777216 --chunk-threshold 134217728 s3://bucket /dst
```

Settings come from the command line, then from `PRSYNC_JOBS`,
`PRSYNC_CHUNK_SIZE`, `PRSYNC_CHUNK_THRESHOLD`, `PRSYNC_RETRIES`,
`PRSYNC_RESUME` and `PRSYNC_STATE_DIR`, then from
`~/.config/prsync/config.toml`, then from built-in defaults. What is remembered
of blocks is kept in `.prsync/blocks.toml` below the destination, or in the
state directory if one is set.
