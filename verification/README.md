# kaas

The decision logic of a Kafka-compatible broker that runs on Kubernetes, written
in Verus. Every function of the library that has a body carries a contract over a
mathematical model, and Verus proves it. Traits that a user implements, such as
the sources of topics and brokers, leave what they answer open.

## The library (`src/`)

| Area | Modules |
| --- | --- |
| Wire format | `api` |
| Placement of partitions and groups | `balancer`, `balancer_laws`, `group_balancer`, `group_hash`, `assignment`, `assignment_writer`, `takeover` |
| Controller and brokers | `election`, `heartbeat`, `endpoints`, `listener_advert`, `kube_watchers`, `fence` |
| Consumer groups and offsets | `group`, `group_laws`, `group_table`, `manager`, `offset_store`, `offset_laws`, `error_codes` |
| Transactions | `txn_state`, `txn_laws`, `txn_markers` |
| Declared topics and users | `topic_registry`, `topic_config_defaults`, `topic_cr_writer`, `config_type`, `kafkauser`, `user_cr_writer`, `json_object` |
| Health and telemetry | `health`, `metrics`, `bootstrap` |
| Building blocks | `text`, `order`, `keyed`, `numbered`, `hashing` |

State machines take an event and return what is to be done: replies, timers,
writes. They do no input or output of their own, hold no locks and read no clock.
Times come in as arguments.

A module's laws are public proof functions named `law_…`: what holds over
several calls, or in every state.

Calls into other crates stand behind small functions whose contracts Verus takes
on trust: the digests and encodings in `hashing`, the buffers in `api::common`,
the group table in `group_table`, JSON objects in `json_object`, and a few string
functions in `text`.

## Around it (`app/`)

Ordinary Rust that performs what the library decides: files, timers, the API
server, HTTP and the export of telemetry.

## Tests (`tests/`)

Examples on concrete values, one file for each area.
