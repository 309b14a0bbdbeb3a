//! Sensor data server: packing of sensor readings, dataset bookkeeping,
//! access control and the decision logic of the chat bot and the alarms.
pub mod bits;
pub mod endian;
pub mod data_store;
pub mod text;
pub mod authorisation;
pub mod user;
pub mod access;
pub mod keyboard;
pub mod bot;
pub mod pattern;
pub mod alarm_args;
pub mod alarm;
pub mod password;
pub mod user_lookup;
pub mod web;
pub mod subscriptions;
pub mod read_plan;
pub mod alarm_cmd;
pub mod alarm_keys;
pub mod charts;
pub mod error_report;
pub mod plotables;
