//! The `/plotables` chat command: the fields a user may plot, dataset by dataset.
use vstd::prelude::*;
use crate::authorisation::Authorisation;
use crate::data_store::{Data, DataSet, DatasetId, Field};
use crate::text::{decimal_repr, push_decimal, push_str};

verus! {

broadcast use vstd::std_specs::hash::group_hash_axioms;

/// The lines of the fields `rights` of a dataset: its id, an underscore, the field id,
/// and the field's name.
pub open spec fn field_lines(set_id: DatasetId, fields: Seq<Field>, rights: Seq<Authorisation>) -> Seq<char>
    decreases rights.len(),
{
    if rights.len() == 0 {
        Seq::empty()
    } else {
        let f = rights.last().field();
        field_lines(set_id, fields, rights.drop_last()) + decimal_repr(set_id as nat) + "_"@
            + decimal_repr(f as nat) + "\t\t\t"@ + fields[f as int].name@ + "\n"@
    }
}

/// The listing of the datasets `access` (in that order): each dataset's name, a header,
/// and a line per field the user has a right to.
pub open spec fn plotables_listing(sets: Map<DatasetId, DataSet>, access: Seq<(DatasetId, Vec<Authorisation>)>) -> Seq<char>
    decreases access.len(),
{
    if access.len() == 0 {
        Seq::empty()
    } else {
        let (id, rights) = access.last();
        plotables_listing(sets, access.drop_last()) + sets[id].metadata.name@
            + "\n<plotable id> <plotable name>\n"@ + field_lines(id, sets[id].metadata.fields@, rights@)
    }
}

/// The line of field `f` of dataset `set_id`: the plotable id `<set id>_<field id>`,
/// three tabs, the field's name.
pub open spec fn plotable_line(set_id: DatasetId, fields: Seq<Field>, f: u8) -> Seq<char> {
    decimal_repr(set_id as nat) + "_"@ + decimal_repr(f as nat) + "\t\t\t"@ + fields[f as int].name@
        + "\n"@
}

/// `s` holds `t` somewhere.
pub open spec fn holds_text(s: Seq<char>, t: Seq<char>) -> bool {
    exists|k: int| 0 <= k && k + t.len() <= s.len() && #[trigger] s.subrange(k, k + t.len()) == t
}

proof fn lemma_field_lines_hold(set_id: DatasetId, fields: Seq<Field>, rights: Seq<Authorisation>, j: int) -> (k: int)
    requires
        0 <= j < rights.len(),
    ensures
        0 <= k,
        k + plotable_line(set_id, fields, rights[j].field()).len() <= field_lines(set_id, fields, rights).len(),
        field_lines(set_id, fields, rights).subrange(
            k,
            k + plotable_line(set_id, fields, rights[j].field()).len(),
        ) == plotable_line(set_id, fields, rights[j].field()),
    decreases rights.len(),
{
    let prev = field_lines(set_id, fields, rights.drop_last());
    let fl = field_lines(set_id, fields, rights);
    let last = plotable_line(set_id, fields, rights.last().field());
    assert(fl =~= prev + last);
    if j == rights.len() - 1 {
        assert(fl.subrange(prev.len() as int, (prev.len() + last.len()) as int) =~= last);
        prev.len() as int
    } else {
        let k = lemma_field_lines_hold(set_id, fields, rights.drop_last(), j);
        assert(rights.drop_last()[j] == rights[j]);
        let line = plotable_line(set_id, fields, rights[j].field());
        assert(fl.subrange(k, k + line.len()) =~= prev.subrange(k, k + line.len()));
        k
    }
}

proof fn lemma_listing_holds(
    sets: Map<DatasetId, DataSet>,
    access: Seq<(DatasetId, Vec<Authorisation>)>,
    i: int,
    j: int,
) -> (k: int)
    requires
        0 <= i < access.len(),
        0 <= j < access[i].1@.len(),
    ensures
        ({
            let line = plotable_line(access[i].0, sets[access[i].0].metadata.fields@, access[i].1@[j].field());
            &&& 0 <= k
            &&& k + line.len() <= plotables_listing(sets, access).len()
            &&& plotables_listing(sets, access).subrange(k, k + line.len()) == line
        }),
    decreases access.len(),
{
    let prefix = access.drop_last();
    let prev = plotables_listing(sets, prefix);
    let (id, rights) = access.last();
    let head = prev + sets[id].metadata.name@ + "\n<plotable id> <plotable name>\n"@;
    let fl = field_lines(id, sets[id].metadata.fields@, rights@);
    let all = plotables_listing(sets, access);
    assert(all =~= head + fl);
    let line = plotable_line(access[i].0, sets[access[i].0].metadata.fields@, access[i].1@[j].field());
    if i == access.len() - 1 {
        let k = lemma_field_lines_hold(id, sets[id].metadata.fields@, rights@, j);
        assert(all.subrange(head.len() + k, head.len() + k + line.len()) =~= fl.subrange(k, k + line.len()));
        head.len() + k
    } else {
        assert(prefix[i] == access[i]);
        let k = lemma_listing_holds(sets, prefix, i, j);
        assert(all.subrange(k, k + line.len()) =~= prev.subrange(k, k + line.len()));
        k
    }
}

/// The listing of `access` holds, for every dataset of `access` and every right the user
/// holds to it, the line of that field.
pub proof fn lemma_listing_holds_every_plotable(
    sets: Map<DatasetId, DataSet>,
    access: Seq<(DatasetId, Vec<Authorisation>)>,
    i: int,
    j: int,
)
    requires
        0 <= i < access.len(),
        0 <= j < access[i].1@.len(),
    ensures
        holds_text(
            plotables_listing(sets, access),
            plotable_line(access[i].0, sets[access[i].0].metadata.fields@, access[i].1@[j].field()),
        ),
{
    let k = lemma_listing_holds(sets, access, i, j);
    let line = plotable_line(access[i].0, sets[access[i].0].metadata.fields@, access[i].1@[j].field());
    assert(plotables_listing(sets, access).subrange(k, k + line.len()) == line);
}

/// The listing of the first datasets of `access` is the start of the listing of all of
/// them: adding a dataset only appends its entry.
pub proof fn lemma_listing_extends(
    sets: Map<DatasetId, DataSet>,
    access: Seq<(DatasetId, Vec<Authorisation>)>,
    n: int,
)
    requires
        0 <= n <= access.len(),
    ensures
        plotables_listing(sets, access.take(n)).len() <= plotables_listing(sets, access).len(),
        plotables_listing(sets, access).take(plotables_listing(sets, access.take(n)).len() as int)
            == plotables_listing(sets, access.take(n)),
    decreases access.len() - n,
{
    if n == access.len() {
        assert(access.take(n) =~= access);
        let all = plotables_listing(sets, access);
        assert(all.take(all.len() as int) =~= all);
    } else {
        lemma_listing_extends(sets, access, n + 1);
        let short = plotables_listing(sets, access.take(n));
        let longer = plotables_listing(sets, access.take(n + 1));
        assert(access.take(n + 1).drop_last() =~= access.take(n));
        let (id, rights) = access.take(n + 1).last();
        assert(longer =~= short + (sets[id].metadata.name@ + "\n<plotable id> <plotable name>\n"@
            + field_lines(id, sets[id].metadata.fields@, rights@)));
        let all = plotables_listing(sets, access);
        assert(all.take(short.len() as int) =~= all.take(longer.len() as int).take(short.len() as int));
        assert(longer.take(short.len() as int) =~= short);
    }
}

/// Every dataset of `access` is known and every right is for one of its fields.
pub open spec fn listable(sets: Map<DatasetId, DataSet>, access: Seq<(DatasetId, Vec<Authorisation>)>) -> bool {
    forall|i: int|
        0 <= i < access.len() ==> sets.contains_key((#[trigger] access[i]).0) && forall|j: int|
            0 <= j < access[i].1@.len() ==> (#[trigger] access[i].1@[j]).field()
                < sets[access[i].0].metadata.fields@.len()
}

/// The reply to `/plotables` for the datasets and rights `access`, in that order.
pub fn plotables_text(data: &Data, access: &Vec<(DatasetId, Vec<Authorisation>)>) -> (text: String)
    requires
        listable(data.sets@, access@),
    ensures
        access@.len() == 0 ==> text@ == "you have no plotables"@,
        access@.len() > 0 ==> text@ == plotables_listing(
            data.sets@,
            access@,
        ),
        forall|i: int, j: int|
            0 <= i < access@.len() && 0 <= j < access@[i].1@.len() ==> holds_text(
                text@,
                #[trigger] plotable_line(
                    access@[i].0,
                    data.sets@[access@[i].0].metadata.fields@,
                    access@[i].1@[j].field(),
                ),
            ),
{
    let mut text = String::new();
    let mut i: usize = 0;
    while i < access.len()
        invariant
            i <= access@.len(),
            listable(data.sets@, access@),
            text@ == plotables_listing(data.sets@, access@.take(i as int)),
        decreases access@.len() - i,
    {
        let (id, rights) = (access[i].0, &access[i].1);
        assert(listable(data.sets@, access@) ==> data.sets@.contains_key(access@[i as int].0));
        let set = data.sets.get(&id).unwrap();
        let meta = &set.metadata;
        push_str(&mut text, meta.name.as_str());
        push_str(&mut text, "\n<plotable id> <plotable name>\n");
        let ghost mid = text@;
        let mut j: usize = 0;
        while j < rights.len()
            invariant
                j <= rights@.len(),
                forall|k: int| 0 <= k < rights@.len() ==> (#[trigger] rights@[k]).field()
                    < meta.fields@.len(),
                text@ == mid + field_lines(id, meta.fields@, rights@.take(j as int)),
            decreases rights@.len() - j,
        {
            let f = rights[j].field_id();
            push_decimal(&mut text, id as u64);
            push_str(&mut text, "_");
            push_decimal(&mut text, f as u64);
            push_str(&mut text, "\t\t\t");
            push_str(&mut text, meta.fields[f as usize].name.as_str());
            push_str(&mut text, "\n");
            proof {
                assert(rights@.take(j + 1).drop_last() =~= rights@.take(j as int));
                assert(text@ =~= mid + field_lines(id, meta.fields@, rights@.take(j + 1)));
            }
            j = j + 1;
        }
        proof {
            assert(rights@.take(j as int) =~= rights@);
            assert(access@.take(i + 1).drop_last() =~= access@.take(i as int));
            assert(text@ =~= plotables_listing(data.sets@, access@.take(i + 1)));
        }
        i = i + 1;
    }
    assert(access@.take(i as int) =~= access@);
    if access.len() == 0 {
        push_str(&mut text, "you have no plotables");
    }
    proof {
        assert forall|i: int, j: int|
            0 <= i < access@.len() && 0 <= j < access@[i].1@.len() implies holds_text(
            text@,
            #[trigger] plotable_line(
                access@[i].0,
                data.sets@[access@[i].0].metadata.fields@,
                access@[i].1@[j].field(),
            ),
        ) by {
            lemma_listing_holds_every_plotable(data.sets@, access@, i, j);
        }
    }
    text
}

} // verus!
