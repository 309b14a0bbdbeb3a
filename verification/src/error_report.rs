//! The messages that sensor errors are reported with.
use vstd::prelude::*;
use crate::data_store::{Data, DataSet, DatasetId, Field, FieldId};
use crate::text::push_str;

verus! {

broadcast use vstd::std_specs::hash::group_hash_axioms;

/// The names of the fields `ids`, written one after the other.
pub open spec fn field_names(fields: Seq<Field>, ids: Seq<FieldId>) -> Seq<char>
    decreases ids.len(),
{
    if ids.len() == 0 {
        Seq::empty()
    } else {
        field_names(fields, ids.drop_last()) + fields[ids.last() as int].name@
    }
}

/// Every id of `ids` is that of a field of `fields`.
pub open spec fn known_fields(fields: Seq<Field>, ids: Seq<FieldId>) -> bool {
    forall|i: int| 0 <= i < ids.len() ==> (#[trigger] ids[i]) < fields.len()
}

/// The report of error `error` at time `time` from the sensor fields `field_ids` of
/// dataset `dataset_id`: dataset 0 is the system itself; field 255 the dataset as a
/// whole. `None` where the dataset or a field is unknown.
pub open spec fn error_message(
    sets: Map<DatasetId, DataSet>,
    dataset_id: DatasetId,
    field_ids: Seq<FieldId>,
    time: Seq<char>,
    error: Seq<char>,
) -> Option<Seq<char>> {
    if dataset_id == 0 {
        Some(time + " system error occured: "@ + error)
    } else if !sets.contains_key(dataset_id) {
        None
    } else {
        let meta = sets[dataset_id].metadata;
        if field_ids[0] == 255 {
            Some(
                time + " error during data collection, "@ + meta.name@ + "("@ + meta.description@
                    + ") reports: "@ + error,
            )
        } else if !known_fields(meta.fields@, field_ids) {
            None
        } else {
            Some(
                time + " error during data collection, "@ + field_names(meta.fields@, field_ids)
                    + " in "@ + meta.name@ + "("@ + meta.description@ + ") reports: "@ + error,
            )
        }
    }
}

/// The report of an error, `time` and `error` being how the time it happened and the
/// error code are written.
pub fn format_error_code(
    data: &Data,
    dataset_id: DatasetId,
    field_ids: &Vec<FieldId>,
    time: &str,
    error: &str,
) -> (r: Result<String, ()>)
    requires
        dataset_id != 0 && data.sets@.contains_key(dataset_id) ==> field_ids@.len() > 0,
    ensures
        match error_message(data.sets@, dataset_id, field_ids@, time@, error@) {
            Some(m) => r matches Ok(s) && s@ == m,
            None => r is Err,
        },
{
    let mut s = String::new();
    if dataset_id == 0 {
        push_str(&mut s, time);
        push_str(&mut s, " system error occured: ");
        push_str(&mut s, error);
        return Ok(s);
    }
    let set = match data.sets.get(&dataset_id) {
        Some(set) => set,
        None => {
            return Err(());
        },
    };
    let meta = &set.metadata;
    if field_ids[0] == 255 {
        push_str(&mut s, time);
        push_str(&mut s, " error during data collection, ");
        push_str(&mut s, meta.name.as_str());
        push_str(&mut s, "(");
        push_str(&mut s, meta.description.as_str());
        push_str(&mut s, ") reports: ");
        push_str(&mut s, error);
        return Ok(s);
    }
    let mut names = String::new();
    let mut i: usize = 0;
    while i < field_ids.len()
        invariant
            i <= field_ids@.len(),
            dataset_id != 0,
            data.sets@.contains_key(dataset_id),
            data.sets@[dataset_id].metadata == *meta,
            field_ids@.len() > 0,
            field_ids@[0] != 255,
            known_fields(meta.fields@, field_ids@.take(i as int)),
            names@ == field_names(meta.fields@, field_ids@.take(i as int)),
        decreases field_ids@.len() - i,
    {
        let id = field_ids[i];
        proof {
            assert(field_ids@.take(i + 1).drop_last() =~= field_ids@.take(i as int));
        }
        if (id as usize) >= meta.fields.len() {
            proof {
                assert(field_ids@[i as int] == id);
                assert(!known_fields(meta.fields@, field_ids@));
                assert(data.sets@[dataset_id].metadata == *meta);
                assert(field_ids@[0] != 255);
            }
            return Err(());
        }
        push_str(&mut names, meta.fields[id as usize].name.as_str());
        i = i + 1;
        proof {
            assert forall|k: int| 0 <= k < field_ids@.take(i as int).len() implies (
            #[trigger] field_ids@.take(i as int)[k]) < meta.fields@.len() by {
                if k < i - 1 {
                    assert(field_ids@.take(i as int)[k] == field_ids@.take(i - 1)[k]);
                }
            }
        }
    }
    assert(field_ids@.take(i as int) =~= field_ids@);
    push_str(&mut s, time);
    push_str(&mut s, " error during data collection, ");
    push_str(&mut s, names.as_str());
    push_str(&mut s, " in ");
    push_str(&mut s, meta.name.as_str());
    push_str(&mut s, "(");
    push_str(&mut s, meta.description.as_str());
    push_str(&mut s, ") reports: ");
    push_str(&mut s, error);
    Ok(s)
}


/// An error a sensor reported.
pub struct NewError {
    pub dataset_id: DatasetId,
    pub field_ids: Vec<FieldId>,
    pub error_code: u8,
    /// Unix time: seconds and nanoseconds.
    pub timestamp: (i64, u32),
}

impl NewError {
    /// The key under which the error is remembered: its dataset, its first field and
    /// its code.
    pub fn to_error_specific_key(&self) -> (key: u32)
        requires
            self.field_ids@.len() > 0,
        ensures
            key == self.dataset_id as int * 65536 + self.field_ids@[0] as int * 256
                + self.error_code as int,
    {
        crate::subscriptions::to_error_specific_key(self.dataset_id, self.field_ids[0], self.error_code)
    }

    /// The key under which clients subscribe to the errors of its first field.
    pub fn to_field_specific_key(&self) -> (key: u32)
        requires
            self.field_ids@.len() > 0,
        ensures
            key == crate::subscriptions::field_key(self.dataset_id, self.field_ids@[0]),
    {
        crate::subscriptions::to_field_specific_key(self.dataset_id, self.field_ids[0])
    }
}

/// Nanoseconds in a day.
pub const DAY_NANOS: i128 = 86_400_000_000_000;

/// The nanoseconds from moment `a` to moment `b`, each given as seconds and nanoseconds.
pub open spec fn nanos_between(a: (i64, u32), b: (i64, u32)) -> int {
    (b.0 - a.0) * 1_000_000_000 + (b.1 - a.1)
}

/// Whether an error last reported at `last` (if ever) counts as reported recently at
/// `now`, and whether `now` is to be remembered as the time it was reported. An error
/// counts as recent when it was reported at most a day before `now`; an error that is
/// not recent (never reported, or last reported longer ago or at a later time) has
/// `now` remembered, and the time of a recent one is left as it is.
pub fn report_decision(last: Option<(i64, u32)>, now: (i64, u32)) -> (r: (bool, bool))
    ensures
        r.0 == match last {
            None => false,
            Some(l) => 0 <= nanos_between(l, now) <= DAY_NANOS,
        },
        r.1 == !r.0,
{
    match last {
        None => (false, true),
        Some(l) => {
            let d: i128 = ((now.0 as i128) - (l.0 as i128)) * 1_000_000_000 + ((now.1 as i128) - (
            l.1 as i128));
            if 0 <= d && d <= DAY_NANOS {
                (true, false)
            } else {
                (false, true)
            }
        },
    }
}

} // verus!
