# mapreduce

A word count (and a sparse matrix product) in the MapReduce style, for a master node and
worker nodes that share a directory. The library in `src/` holds the logic, verified with
Verus; `app/` is the program around it (process calls, files, TCP, async tasks).

- `job_manager`: jobs and their stages; the split of the input into one file per worker,
  and the directives of each stage, one per split file.
- `manager`: the pool of workers: who is free, who is busy, which directives wait.
- `worker` (and the earlier `slave`): the map, shuffle and reduce stages on text.
- `messages`, `json`: the JSON messages between master and workers.
- `pipeline`: the stages together: the reduce stage finds for each word its count in the
  whole input.
- `singlenode`: the same count in one process.
