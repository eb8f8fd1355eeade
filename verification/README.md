# sail_execution

The execution layer of a distributed query engine, verified with Verus: the driver's job scheduler
and the local streams that carry shuffled data between the stages of a job.

## Library

`src/` holds the logic. Every function states what it returns or changes, over mathematical views of
the data, and Verus proves it.

- `adaptive` sizes the reads of a shuffle: coalescing small channels, finding skewed ones, splitting
  them. `shuffle_index` writes and reads the index files that tell the sizes.
- `job_graph`, `topology`, `task`, `state` and `job` describe a job: its stages, the regions in which
  its tasks are scheduled, and the attempts at its tasks.
- `scheduler` decides what happens to jobs. `JobScheduler` takes in reports (`update_task`) and
  answers with actions (`refresh_job`, `clean_up_job`). Each step of a refresh has a module of its own:
  `cancel`, `output`, `progress`, `schedule` with `adapt` and `region`, and `failure`. What a task needs
  to run is told by `definition` and `input`. A plan that does not come to one output partition for
  every group of channels can leave a job referring to tasks that it does not have. `try_refresh_job`
  tells such a job from one that can be refreshed.
- What a refresh has to know from outside comes in `measurements`: the sizes in index files, and what
  the query engine makes of changed plans. `scheduler::reads` lists both before a refresh.
- `stream` holds the streams: `memory` replicates items to several receivers without blocking, over the
  channels of `channel`; `disk` decides when a file is opened, written and finished, and what its index
  file tells.
- `node` holds the options of drivers and workers, from which those of the scheduler and the streams
  are made.
- `clock`, `collections`, `id`, `lists`, `text`, `error` and `action` are shared by the others.

What holds across operations is stated in public proof functions:

- `scheduler::laws`: what a refresh leads to, what stops for good, what is reported where.
- `scheduler::limits`: no task is attempted more often than allowed.
- `scheduler::course`: what holds of a job from its beginning to its end.
- `scheduler::choices` and `scheduler::repeat`: how a region reads shuffled data is chosen once.
- `scheduler::order`: no region runs before those that it depends on.
- `scheduler::stability`: refreshing again without news does nothing.
- `scheduler::snapshot`: the index files and changed plans that are listed for a refresh are all that
  it needs.
- `scheduler::cancel`, `scheduler::region`, `scheduler::input`, `scheduler::options`,
  `adaptive`, `shuffle_index`, `stream::memory`, `stream::disk`: laws of the single steps.

A few calls leave the library, all of them behind functions marked `external_body` or an
`assume_specification`: the clock of `chrono`, the ordered collections of `indexmap`, the channels of
`tokio`, sorting and path cloning of the standard library. Plans, schemas and streams of the query
engine are known to the library by handles only.

## Around the library

`app/` connects the library to the file system, to the query engine and to asynchronous streams.
`tests/` runs the library on examples.
