# dataserver

A server for sensor data: sensors post packed readings, users read them through a
web interface and a chat bot, and alarms watch the readings.

The library under `src/` holds the logic, each function with a contract proved by
Verus. The calls into other crates (serde_json, ring, chrono, evalexpr) and two calls
into std (`String::push`, `u16::to_ne_bytes`) go through small wrappers whose
contracts are trusted, not proved; each says in its doc comment what it claims.

- `bits`, `endian`, `data_store`, `read_plan`: how readings are packed into lines,
  which packets are accepted, how lines are recoded for clients and how reads are
  split into packages.
- `user`, `authorisation`, `access`, `user_lookup`, `password`: users, their rights
  to fields of datasets, the lookup tables of names and chat ids, and passwords.
- `bot`, `keyboard`, `alarm_args`, `alarm_cmd`, `alarm`, `plotables`, `charts`,
  `alarm_keys`, `pattern`, `text`: the chat commands, from the parsing of their arguments to the
  replies, and the state each alarm keeps between evaluations.
- `subscriptions`, `error_report`, `web`: who receives which live data, when a
  sensor error is reported, and what the web server decides.

`app/` is the program around it: reading the command line, the stores on disk, the
chat loop, and the parts that compute with floating point numbers.

`tests/` runs the library on concrete values.
