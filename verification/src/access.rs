//! Which fields of which datasets a user asks for, and whether the user may see them.
use crate::authorisation::Authorisation;
use crate::data_store::{DatasetId, Field, FieldId};
use crate::text::{
    chars_of, decimal_repr, parse_unsigned, parse_unsigned_exec, push_decimal, push_str,
    split_whitespace, string_of, words,
};
use crate::user::{access_of, access_sorted, grants, has_access, sorted_by_field, User};
use std::collections::HashMap;
use vstd::prelude::*;
use vstd::seq_lib::{to_multiset_build, to_multiset_insert};
use vstd::string::StringExecFns;

verus! {

broadcast use vstd::std_specs::hash::group_hash_axioms;

/// Index of the first `c` in `w`, or the length of `w` if there is none.
pub open spec fn index_of(w: Seq<char>, c: char) -> nat
    decreases w.len(),
{
    if w.len() == 0 || w[0] == c {
        0
    } else {
        1 + index_of(w.drop_first(), c)
    }
}

/// The part of a plotable id before the first `_`.
pub open spec fn first_piece(w: Seq<char>) -> Seq<char> {
    w.take(index_of(w, '_') as int)
}

/// The part of a plotable id between the first and the second `_`, if it has a `_`.
pub open spec fn second_piece(w: Seq<char>) -> Option<Seq<char>> {
    let i = index_of(w, '_');
    if i < w.len() {
        let rest = w.skip(i + 1 as int);
        Some(rest.take(index_of(rest, '_') as int))
    } else {
        None
    }
}

/// Why a plotable id could not be read.
pub enum PlotableFault {
    /// A part is not a number of the right size.
    Parse,
    /// There is no `_`.
    Split,
}

/// Dataset and field a plotable id `<dataset>_<field>` names.
pub open spec fn plotable_of(w: Seq<char>) -> Result<(DatasetId, FieldId), PlotableFault> {
    match parse_unsigned(first_piece(w), u16::MAX as nat) {
        None => Err(PlotableFault::Parse),
        Some(s) => match second_piece(w) {
            None => Err(PlotableFault::Split),
            Some(p) => match parse_unsigned(p, u8::MAX as nat) {
                None => Err(PlotableFault::Parse),
                Some(f) => Ok((s as DatasetId, f as FieldId)),
            },
        },
    }
}

proof fn lemma_index_of_bound(w: Seq<char>, c: char)
    ensures
        index_of(w, c) <= w.len(),
        forall|k: int| 0 <= k < index_of(w, c) ==> #[trigger] w[k] != c,
        index_of(w, c) < w.len() ==> w[index_of(w, c) as int] == c,
    decreases w.len(),
{
    if w.len() > 0 && w[0] != c {
        lemma_index_of_bound(w.drop_first(), c);
        assert forall|k: int| 0 <= k < index_of(w, c) implies #[trigger] w[k] != c by {
            if k > 0 {
                assert(w[k] == w.drop_first()[k - 1]);
            }
        }
    }
}

proof fn lemma_index_of_exact(w: Seq<char>, c: char, n: int)
    requires
        0 <= n <= w.len(),
        forall|k: int| 0 <= k < n ==> #[trigger] w[k] != c,
        n == w.len() || w[n] == c,
    ensures
        index_of(w, c) == n,
    decreases n,
{
    if n > 0 {
        assert(w[0] != c);
        if n < w.len() {
            assert(w.drop_first()[n - 1] == w[n]);
        }
        assert forall|k: int| 0 <= k < n - 1 implies #[trigger] w.drop_first()[k] != c by {
            assert(w.drop_first()[k] == w[k + 1]);
        }
        lemma_index_of_exact(w.drop_first(), c, n - 1);
    }
}

/// Index of the first `c` in `w` at or after `start`, or the length of `w`.
fn find_from(w: &[char], c: char, start: usize) -> (i: usize)
    requires
        start <= w@.len(),
    ensures
        i as nat == start + index_of(w@.skip(start as int), c),
        i <= w@.len(),
{
    let mut i = start;
    while i < w.len() && w[i] != c
        invariant
            start <= i <= w@.len(),
            forall|k: int| start <= k < i ==> #[trigger] w@[k] != c,
        decreases w@.len() - i,
    {
        i = i + 1;
    }
    proof {
        let t = w@.skip(start as int);
        assert forall|k: int| 0 <= k < i - start implies #[trigger] t[k] != c by {
            assert(t[k] == w@[start + k]);
        }
        if i < w@.len() {
            assert(t[i - start] == w@[i as int]);
        }
        lemma_index_of_exact(t, c, i - start);
    }
    i
}

fn sub_vec(w: &[char], from: usize, to: usize) -> (out: Vec<char>)
    requires
        from <= to <= w@.len(),
    ensures
        out@ == w@.subrange(from as int, to as int),
{
    let mut out: Vec<char> = Vec::new();
    let mut i = from;
    while i < to
        invariant
            from <= i <= to <= w@.len(),
            out@ == w@.subrange(from as int, i as int),
        decreases to - i,
    {
        out.push(w[i]);
        i = i + 1;
        assert(out@ =~= w@.subrange(from as int, i as int));
    }
    out
}

/// Reads a plotable id `<dataset>_<field>`.
pub fn parse_plotable(w: &[char]) -> (r: Result<(DatasetId, FieldId), PlotableFault>)
    ensures
        r == plotable_of(w@),
{
    let i = find_from(w, '_', 0);
    assert(w@.skip(0) =~= w@);
    let first = sub_vec(w, 0, i);
    assert(first@ =~= first_piece(w@));
    let set_id = match parse_unsigned_exec(first.as_slice(), u16::MAX as u64) {
        Some(v) => v as DatasetId,
        None => {
            return Err(PlotableFault::Parse);
        },
    };
    if i == w.len() {
        return Err(PlotableFault::Split);
    }
    let j = find_from(w, '_', i + 1);
    let second = sub_vec(w, i + 1, j);
    proof {
        let rest = w@.skip(i + 1);
        assert(second@ =~= rest.take(index_of(rest, '_') as int));
    }
    match parse_unsigned_exec(second.as_slice(), u8::MAX as u64) {
        Some(v) => Ok((set_id, v as FieldId)),
        None => Err(PlotableFault::Parse),
    }
}

/// `fields` with `f` added at the end, unless it is already there.
pub open spec fn add_once(fields: Seq<FieldId>, f: FieldId) -> Seq<FieldId> {
    if fields.contains(f) {
        fields
    } else {
        fields.push(f)
    }
}

/// `m` with field `f` of dataset `s` added.
pub open spec fn add_field(m: Map<DatasetId, Seq<FieldId>>, s: DatasetId, f: FieldId) -> Map<
    DatasetId,
    Seq<FieldId>,
> {
    if m.contains_key(s) {
        m.insert(s, add_once(m[s], f))
    } else {
        m.insert(s, seq![f])
    }
}

/// Why a `/show` request was refused.
pub enum ShowFault {
    Parse(Seq<char>),
    Split(Seq<char>),
    NoField(FieldId),
    NoSet(DatasetId),
    NoData(DatasetId),
    NotEnough,
}

/// The fields of each dataset that the words of a `/show` request ask for, or why
/// the request is refused: the first word, in order, that is not a plotable id or
/// names a field the user may not see.
pub open spec fn show_selection(ws: Seq<Seq<char>>, access: Map<DatasetId, Seq<Authorisation>>) -> Result<
    Map<DatasetId, Seq<FieldId>>,
    ShowFault,
>
    decreases ws.len(),
{
    if ws.len() == 0 {
        Ok(Map::empty())
    } else {
        match show_selection(ws.drop_last(), access) {
            Err(e) => Err(e),
            Ok(m) => {
                let w = ws.last();
                match plotable_of(w) {
                    Err(PlotableFault::Parse) => Err(ShowFault::Parse(w)),
                    Err(PlotableFault::Split) => Err(ShowFault::Split(w)),
                    Ok((s, f)) => if !access.contains_key(s) {
                        Err(ShowFault::NoSet(s))
                    } else if !grants(access[s], f) {
                        Err(ShowFault::NoField(f))
                    } else {
                        Ok(add_field(m, s, f))
                    },
                }
            },
        }
    }
}

/// Once a prefix of a request is refused, the whole request is refused for the same
/// reason.
proof fn lemma_show_fault_sticks(
    ws: Seq<Seq<char>>,
    access: Map<DatasetId, Seq<Authorisation>>,
    k: int,
)
    requires
        0 <= k <= ws.len(),
        show_selection(ws.take(k), access) is Err,
    ensures
        show_selection(ws, access) == show_selection(ws.take(k), access),
    decreases ws.len() - k,
{
    if k < ws.len() {
        assert(ws.take(k + 1).drop_last() =~= ws.take(k));
        lemma_show_fault_sticks(ws, access, k + 1);
    } else {
        assert(ws.take(k) =~= ws);
    }
}

/// `list` holds the entries of `m` ordered by strictly increasing dataset id.
pub open spec fn sorted_listing(list: Seq<(DatasetId, Vec<FieldId>)>, m: Map<DatasetId, Seq<FieldId>>) -> bool {
    &&& forall|i: int, j: int| 0 <= i < j < list.len() ==> list[i].0 < list[j].0
    &&& forall|i: int|
        0 <= i < list.len() ==> m.contains_key(#[trigger] list[i].0) && m[list[i].0]
            == list[i].1@
    &&& forall|k: DatasetId| #[trigger]
        m.contains_key(k) ==> exists|i: int| 0 <= i < list.len() && list[i].0 == k
}

/// Why a `/show` request was refused.
pub enum ShowError {
    ArgumentParseError(String),
    ArgumentSplitError(String),
    NoAccessToField(FieldId),
    NoAccessToDataSet(DatasetId),
    NoData(DatasetId),
    NotEnoughArguments,
}

impl ShowError {
    pub open spec fn fault(&self) -> ShowFault {
        match self {
            ShowError::ArgumentParseError(s) => ShowFault::Parse(s@),
            ShowError::ArgumentSplitError(s) => ShowFault::Split(s@),
            ShowError::NoAccessToField(f) => ShowFault::NoField(*f),
            ShowError::NoAccessToDataSet(s) => ShowFault::NoSet(*s),
            ShowError::NoData(s) => ShowFault::NoData(*s),
            ShowError::NotEnoughArguments => ShowFault::NotEnough,
        }
    }

    /// The message for the user.
    pub open spec fn text(&self) -> Seq<char> {
        match self {
            ShowError::ArgumentParseError(a) => "The argument "@ + a@ + " could not be parsed"@,
            ShowError::ArgumentSplitError(a) => "The argument "@ + a@
                + " could not be interpreted, does it contain a \":\"?"@,
            ShowError::NoAccessToField(f) => "You do not have access to field: "@ + decimal_repr(
                *f as nat,
            ),
            ShowError::NoAccessToDataSet(d) => "You do not have access to dataset: "@
                + decimal_repr(*d as nat),
            ShowError::NoData(d) => "There is no data for dataset: "@ + decimal_repr(*d as nat),
            ShowError::NotEnoughArguments => "Not enough arguments\nuse: "@ + SHOW_USAGE@,
        }
    }

    /// The message for the user.
    pub fn to_text(&self) -> (s: String)
        ensures
            s@ == self.text(),
    {
        let mut s = String::new();
        match self {
            ShowError::ArgumentParseError(a) => {
                push_str(&mut s, "The argument ");
                push_str(&mut s, a.as_str());
                push_str(&mut s, " could not be parsed");
            },
            ShowError::ArgumentSplitError(a) => {
                push_str(&mut s, "The argument ");
                push_str(&mut s, a.as_str());
                push_str(&mut s, " could not be interpreted, does it contain a \":\"?");
            },
            ShowError::NoAccessToField(f) => {
                push_str(&mut s, "You do not have access to field: ");
                push_decimal(&mut s, *f as u64);
            },
            ShowError::NoAccessToDataSet(d) => {
                push_str(&mut s, "You do not have access to dataset: ");
                push_decimal(&mut s, *d as u64);
            },
            ShowError::NoData(d) => {
                push_str(&mut s, "There is no data for dataset: ");
                push_decimal(&mut s, *d as u64);
            },
            ShowError::NotEnoughArguments => {
                push_str(&mut s, "Not enough arguments\nuse: ");
                push_str(&mut s, SHOW_USAGE);
            },
        }
        s
    }
}

/// How the `/show` command is used.
pub const SHOW_USAGE: &'static str = "/show <plotable_id 1> ... <plotable_id n>";

fn contains_field(fields: &Vec<FieldId>, f: FieldId) -> (b: bool)
    ensures
        b == fields@.contains(f),
{
    let mut i: usize = 0;
    while i < fields.len()
        invariant
            i <= fields@.len(),
            forall|k: int| 0 <= k < i ==> fields@[k] != f,
        decreases fields@.len() - i,
    {
        if fields[i] == f {
            assert(fields@[i as int] == f);
            return true;
        }
        i = i + 1;
    }
    false
}

/// Adds field `f` of dataset `s` to a listing, keeping it sorted.
pub(crate) fn add_to_listing(list: &mut Vec<(DatasetId, Vec<FieldId>)>, s: DatasetId, f: FieldId, m: Ghost<Map<DatasetId, Seq<FieldId>>>)
    requires
        sorted_listing(old(list)@, m@),
    ensures
        sorted_listing(final(list)@, add_field(m@, s, f)),
{
    let ghost old_list = list@;
    let mut i: usize = 0;
    while i < list.len() && list[i].0 < s
        invariant
            i <= list@.len(),
            list@ == old_list,
            forall|k: int| 0 <= k < i ==> #[trigger] list@[k].0 < s,
        decreases list@.len() - i,
    {
        i = i + 1;
    }
    let ghost m2 = add_field(m@, s, f);
    if i < list.len() && list[i].0 == s {
        let (sid, mut fields) = list.remove(i);
        let ghost before = fields@;
        if !contains_field(&fields, f) {
            fields.push(f);
        }
        list.insert(i, (sid, fields));
        proof {
            assert(m@.contains_key(s));
            assert(list@ =~= old_list.update(i as int, (sid, fields)));
            assert forall|k: DatasetId| #[trigger] m2.contains_key(k) implies exists|j: int|
                0 <= j < list@.len() && list@[j].0 == k by {
                if k != s {
                    let j = choose|j: int| 0 <= j < old_list.len() && old_list[j].0 == k;
                    assert(list@[j].0 == k);
                } else {
                    assert(list@[i as int].0 == k);
                }
            }
        }
    } else {
        let mut fields: Vec<FieldId> = Vec::new();
        fields.push(f);
        list.insert(i, (s, fields));
        proof {
            assert(!m@.contains_key(s)) by {
                if m@.contains_key(s) {
                    let j = choose|j: int| 0 <= j < old_list.len() && old_list[j].0 == s;
                    if j < i {
                        assert(old_list[j].0 < s);
                    } else if j > i {
                        assert(old_list[i as int].0 < old_list[j].0);
                        assert(old_list[i as int].0 > s);
                    }
                }
            }
            assert(fields@ =~= seq![f]);
            assert forall|a: int, b: int| 0 <= a < b < list@.len() implies list@[a].0 < list@[b].0 by {
                if a < i && b == i {
                } else if a == i as int && b > a {
                    assert(list@[b] == old_list[b - 1]);
                    if i < old_list.len() {
                        assert(old_list[i as int].0 >= s);
                        assert(old_list[i as int].0 != s);
                        if b - 1 > i {
                            assert(old_list[i as int].0 < old_list[b - 1].0);
                        }
                    }
                } else if a < i && b > i {
                    assert(list@[b] == old_list[b - 1]);
                } else if a > i {
                    assert(list@[a] == old_list[a - 1]);
                    assert(list@[b] == old_list[b - 1]);
                }
            }
            assert forall|j: int| 0 <= j < list@.len() implies m2.contains_key(
                #[trigger] list@[j].0,
            ) && m2[list@[j].0] == list@[j].1@ by {
                if j > i {
                    assert(list@[j] == old_list[j - 1]);
                }
            }
            assert forall|k: DatasetId| #[trigger] m2.contains_key(k) implies exists|j: int|
                0 <= j < list@.len() && list@[j].0 == k by {
                if k != s {
                    let j = choose|j: int| 0 <= j < old_list.len() && old_list[j].0 == k;
                    if j < i {
                        assert(list@[j].0 == k);
                    } else {
                        assert(list@[j + 1].0 == k);
                    }
                } else {
                    assert(list@[i as int].0 == k);
                }
            }
        }
    }
}

/// The fields each dataset that a `/show` request asks for: the words of `args` are
/// plotable ids; the result is sorted by dataset id, each dataset's fields in the
/// order first asked for.
pub fn parse_args(args: &str, user: &User) -> (r: Result<Vec<(DatasetId, Vec<FieldId>)>, ShowError>)
    ensures
        r matches Ok(list) ==> forall|i: int|
            0 <= i < list@.len() ==> access_of(user).contains_key(#[trigger] list@[i].0)
                && forall|j: int|
                0 <= j < list@[i].1@.len() ==> grants(
                    access_of(user)[list@[i].0],
                    #[trigger] list@[i].1@[j],
                ),
        access_sorted(user) ==> match show_selection(words(args@), access_of(user)) {
            Err(fault) => r matches Err(e) && e.fault() == fault,
            Ok(m) => if m.dom().is_empty() {
                r matches Err(e) && e.fault() == ShowFault::NotEnough
            } else {
                r matches Ok(list) && sorted_listing(list@, m)
            },
        },
{
    let chars = chars_of(args);
    let ws = split_whitespace(chars.as_slice());
    let ghost all = words(args@);
    let ghost access = access_of(user);
    let mut list: Vec<(DatasetId, Vec<FieldId>)> = Vec::new();
    let ghost mut m: Map<DatasetId, Seq<FieldId>> = Map::empty();
    let mut i: usize = 0;
    while i < ws.len()
        invariant
            i <= ws@.len(),
            ws@.len() == all.len(),
            all == words(args@),
            access == access_of(user),
            forall|k: int| 0 <= k < ws@.len() ==> (#[trigger] ws@[k])@ == all[k],
            access_sorted(user) ==> show_selection(all.take(i as int), access) == Ok::<
                Map<DatasetId, Seq<FieldId>>,
                ShowFault,
            >(m),
            sorted_listing(list@, m),
            forall|k: int|
                0 <= k < list@.len() ==> access.contains_key(#[trigger] list@[k].0) && forall|
                    j: int,
                |
                    0 <= j < list@[k].1@.len() ==> grants(access[list@[k].0], #[trigger] list@[k].1@[j]),
        decreases ws@.len() - i,
    {
        let w = &ws[i];
        proof {
            assert(all.take(i + 1).drop_last() =~= all.take(i as int));
            assert(all.take(i + 1).last() == w@);
        }
        let (set_id, field_id) = match parse_plotable(w.as_slice()) {
            Ok(ids) => ids,
            Err(PlotableFault::Parse) => {
                proof {
                    if access_sorted(user) {
                        lemma_show_fault_sticks(all, access, i + 1);
                    }
                }
                return Err(ShowError::ArgumentParseError(string_of(w.as_slice())));
            },
            Err(PlotableFault::Split) => {
                proof {
                    if access_sorted(user) {
                        lemma_show_fault_sticks(all, access, i + 1);
                    }
                }
                return Err(ShowError::ArgumentSplitError(string_of(w.as_slice())));
            },
        };
        let fields_with_access = match user.timeseries_with_access.get(&set_id) {
            Some(f) => f,
            None => {
                proof {
                    if access_sorted(user) {
                        lemma_show_fault_sticks(all, access, i + 1);
                    }
                }
                return Err(ShowError::NoAccessToDataSet(set_id));
            },
        };
        if !has_access(fields_with_access.as_slice(), field_id) {
            proof {
                if access_sorted(user) {
                    assert(sorted_by_field(access[set_id]));
                    lemma_show_fault_sticks(all, access, i + 1);
                }
            }
            return Err(ShowError::NoAccessToField(field_id));
        }
        let ghost old_list = list@;
        add_to_listing(&mut list, set_id, field_id, Ghost(m));
        proof {
            assert(grants(access[set_id], field_id));
            let m2 = add_field(m, set_id, field_id);
            assert forall|k: int| 0 <= k < list@.len() implies access.contains_key(
                #[trigger] list@[k].0,
            ) && forall|j: int|
                0 <= j < list@[k].1@.len() ==> grants(
                    access[list@[k].0],
                    #[trigger] list@[k].1@[j],
                ) by {
                let s = list@[k].0;
                assert(m2.contains_key(s));
                if s != set_id {
                    assert(m.contains_key(s));
                    let k2 = choose|k2: int| 0 <= k2 < old_list.len() && old_list[k2].0 == s;
                    assert(m[s] == old_list[k2].1@);
                    assert(list@[k].1@ == m2[s]);
                } else if m.contains_key(s) {
                    let k2 = choose|k2: int| 0 <= k2 < old_list.len() && old_list[k2].0 == s;
                    assert(m[s] == old_list[k2].1@);
                    assert forall|j: int| 0 <= j < list@[k].1@.len() implies grants(
                        access[s],
                        #[trigger] list@[k].1@[j],
                    ) by {
                        assert(list@[k].1@ == add_once(m[s], field_id));
                        if j < m[s].len() {
                            assert(list@[k].1@[j] == old_list[k2].1@[j]);
                        }
                    }
                } else {
                    assert(list@[k].1@ == seq![field_id]);
                }
            }
            m = m2;
        }
        i = i + 1;
    }
    proof {
        assert(all.take(ws@.len() as int) =~= all);
    }
    if list.len() == 0 {
        proof {
            if access_sorted(user) {
                assert(m.dom() =~= Set::<DatasetId>::empty()) by {
                    assert forall|k: DatasetId| !m.contains_key(k) by {
                        if m.contains_key(k) {
                            let j = choose|j: int| 0 <= j < list@.len() && list@[j].0 == k;
                        }
                    }
                }
            }
        }
        return Err(ShowError::NotEnoughArguments);
    }
    proof {
        assert(m.contains_key(list@[0].0));
        assert(!m.dom().is_empty()) by {
            assert(m.dom().contains(list@[0].0));
        }
    }
    Ok(list)
}

/// A dataset or field the user may not see.
#[derive(PartialEq, Eq, Structural, Clone, Copy, Debug)]
pub enum AccessError {
    NoAccessToField(FieldId),
    NoAccessToDataSet(DatasetId),
}

/// The distinct fields of `fields` in the order first asked for, or the first field
/// the user may not see.
pub open spec fn selected_fields(fields: Seq<FieldId>, granted: Seq<Authorisation>) -> Result<
    Seq<FieldId>,
    FieldId,
>
    decreases fields.len(),
{
    if fields.len() == 0 {
        Ok(Seq::empty())
    } else {
        match selected_fields(fields.drop_last(), granted) {
            Err(f) => Err(f),
            Ok(sub) => {
                let f = fields.last();
                if sub.contains(f) {
                    Ok(sub)
                } else if grants(granted, f) {
                    Ok(sub.push(f))
                } else {
                    Err(f)
                }
            },
        }
    }
}

proof fn lemma_selected_fault_sticks(fields: Seq<FieldId>, granted: Seq<Authorisation>, k: int)
    requires
        0 <= k <= fields.len(),
        selected_fields(fields.take(k), granted) is Err,
    ensures
        selected_fields(fields, granted) == selected_fields(fields.take(k), granted),
    decreases fields.len() - k,
{
    if k < fields.len() {
        assert(fields.take(k + 1).drop_last() =~= fields.take(k));
        lemma_selected_fault_sticks(fields, granted, k + 1);
    } else {
        assert(fields.take(k) =~= fields);
    }
}

/// A field asked for twice is selected once: the selection holds no field twice, and
/// only fields the user may see.
pub proof fn lemma_selected_fields_distinct(fields: Seq<FieldId>, granted: Seq<Authorisation>)
    ensures
        selected_fields(fields, granted) matches Ok(sub) ==> (forall|i: int, j: int|
            0 <= i < j < sub.len() ==> sub[i] != sub[j]) && (forall|i: int|
            0 <= i < sub.len() ==> grants(granted, #[trigger] sub[i])),
    decreases fields.len(),
{
    if fields.len() > 0 {
        lemma_selected_fields_distinct(fields.drop_last(), granted);
        match selected_fields(fields.drop_last(), granted) {
            Ok(sub) => {
                let f = fields.last();
                if !sub.contains(f) && grants(granted, f) {
                    let n = sub.push(f);
                    assert forall|i: int, j: int| 0 <= i < j < n.len() implies n[i] != n[j] by {
                        if j == sub.len() {
                            assert(n[i] == sub[i]);
                        }
                    }
                    assert forall|i: int| 0 <= i < n.len() implies grants(granted, #[trigger] n[i]) by {
                        if i < sub.len() {
                            assert(n[i] == sub[i]);
                        }
                    }
                }
            },
            Err(_) => {},
        }
    }
}

/// The fields of dataset `set_id` a plot asks for, each once, in the order first
/// asked for.
pub fn select_data(set_id: DatasetId, field_ids: &[FieldId], user: &User) -> (r: Result<
    HashMap<DatasetId, Vec<FieldId>>,
    AccessError,
>)
    ensures
        !access_of(user).contains_key(set_id) ==> r == Err::<
            HashMap<DatasetId, Vec<FieldId>>,
            AccessError,
        >(AccessError::NoAccessToDataSet(set_id)),
        r matches Ok(map) ==> {
            &&& map@.dom() == set![set_id]
            &&& access_of(user).contains_key(set_id)
            &&& forall|j: int|
                0 <= j < map@[set_id]@.len() ==> grants(
                    access_of(user)[set_id],
                    #[trigger] map@[set_id]@[j],
                )
        },
        access_of(user).contains_key(set_id) && sorted_by_field(access_of(user)[set_id]) ==> match selected_fields(
            field_ids@,
            access_of(user)[set_id],
        ) {
            Ok(sub) => r matches Ok(map) && map@[set_id]@ == sub,
            Err(f) => r == Err::<HashMap<DatasetId, Vec<FieldId>>, AccessError>(
                AccessError::NoAccessToField(f),
            ),
        },
{
    let granted = match user.timeseries_with_access.get(&set_id) {
        Some(g) => g,
        None => {
            return Err(AccessError::NoAccessToDataSet(set_id));
        },
    };
    let ghost g = granted@;
    assert(access_of(user)[set_id] == g);
    let mut subbed: Vec<FieldId> = Vec::new();
    let mut i: usize = 0;
    assert(field_ids@.take(0) =~= Seq::<FieldId>::empty());
    while i < field_ids.len()
        invariant
            i <= field_ids@.len(),
            g == granted@,
            access_of(user).contains_key(set_id),
            access_of(user)[set_id] == g,
            forall|j: int| 0 <= j < subbed@.len() ==> grants(g, #[trigger] subbed@[j]),
            sorted_by_field(g) ==> selected_fields(field_ids@.take(i as int), g) == Ok::<
                Seq<FieldId>,
                FieldId,
            >(subbed@),
        decreases field_ids@.len() - i,
    {
        let f = field_ids[i];
        proof {
            assert(field_ids@.take(i + 1).drop_last() =~= field_ids@.take(i as int));
        }
        if contains_field(&subbed, f) {
        } else if has_access(granted.as_slice(), f) {
            subbed.push(f);
            proof {
                assert forall|j: int| 0 <= j < subbed@.len() implies grants(
                    g,
                    #[trigger] subbed@[j],
                ) by {
                    if j < subbed@.len() - 1 {
                        assert(subbed@[j] == subbed@.drop_last()[j]);
                    }
                }
            }
        } else {
            proof {
                if sorted_by_field(g) {
                    assert(!grants(g, f));
                    assert(field_ids@.take(i + 1).last() == f);
                    assert(selected_fields(field_ids@.take(i + 1), g) == Err::<Seq<FieldId>, FieldId>(
                        f,
                    ));
                    lemma_selected_fault_sticks(field_ids@, g, i + 1);
                }
            }
            return Err(AccessError::NoAccessToField(f));
        }
        i = i + 1;
    }
    proof {
        assert(field_ids@.take(field_ids@.len() as int) =~= field_ids@);
    }
    let mut map: HashMap<DatasetId, Vec<FieldId>> = HashMap::new();
    map.insert(set_id, subbed);
    assert(map@.dom() =~= set![set_id]);
    Ok(map)
}

/// The first field of `list` the user may not see.
pub open spec fn first_ungranted(list: Seq<FieldId>, granted: Seq<Authorisation>) -> Option<FieldId>
    decreases list.len(),
{
    if list.len() == 0 {
        None
    } else if !grants(granted, list[0]) {
        Some(list[0])
    } else {
        first_ungranted(list.drop_first(), granted)
    }
}

/// Whether the user may see every field `needed` names: the first dataset, in order,
/// the user may not see, or its first field the user may not see, refuses it.
pub open spec fn authorization(
    needed: Seq<(DatasetId, Vec<FieldId>)>,
    access: Map<DatasetId, Seq<Authorisation>>,
) -> Result<(), AccessError>
    decreases needed.len(),
{
    if needed.len() == 0 {
        Ok(())
    } else {
        let s = needed[0].0;
        if !access.contains_key(s) {
            Err(AccessError::NoAccessToDataSet(s))
        } else {
            match first_ungranted(needed[0].1@, access[s]) {
                Some(f) => Err(AccessError::NoAccessToField(f)),
                None => authorization(needed.drop_first(), access),
            }
        }
    }
}

/// The user may see dataset `entry.0` and every field of it in `entry.1`.
pub open spec fn set_granted(entry: (DatasetId, Vec<FieldId>), access: Map<DatasetId, Seq<Authorisation>>) -> bool {
    &&& access.contains_key(entry.0)
    &&& forall|b: int| 0 <= b < entry.1@.len() ==> grants(access[entry.0], #[trigger] entry.1@[b])
}

/// Checks that the user may see every field an alarm watches.
pub fn authorized(needed_fields: &[(DatasetId, Vec<FieldId>)], user: &User) -> (r: Result<
    (),
    AccessError,
>)
    ensures
        r is Ok ==> forall|i: int|
            0 <= i < needed_fields@.len() ==> set_granted(#[trigger] needed_fields@[i], access_of(user)),
        r matches Err(AccessError::NoAccessToDataSet(s)) ==> !access_of(user).contains_key(s),
        access_sorted(user) ==> r == authorization(needed_fields@, access_of(user)),
{
    let ghost access = access_of(user);
    let mut i: usize = 0;
    assert(needed_fields@.skip(0) =~= needed_fields@);
    while i < needed_fields.len()
        invariant
            i <= needed_fields@.len(),
            access == access_of(user),
            access_sorted(user) ==> authorization(needed_fields@, access) == authorization(
                needed_fields@.skip(i as int),
                access,
            ),
            forall|a: int| 0 <= a < i ==> set_granted(#[trigger] needed_fields@[a], access),
        decreases needed_fields@.len() - i,
    {
        let set_id = needed_fields[i].0;
        let list = &needed_fields[i].1;
        proof {
            assert(needed_fields@.skip(i as int)[0] == needed_fields@[i as int]);
            assert(needed_fields@.skip(i as int).drop_first() =~= needed_fields@.skip(i + 1));
        }
        let granted = match user.timeseries_with_access.get(&set_id) {
            Some(g) => g,
            None => {
                return Err(AccessError::NoAccessToDataSet(set_id));
            },
        };
        assert(granted@ == access[set_id]);
        proof {
            if access_sorted(user) {
                assert(user.timeseries_with_access@.contains_key(set_id));
                assert(sorted_by_field(granted@));
            }
        }
        let ghost entry = needed_fields@[i as int];
        let mut j: usize = 0;
        assert(list@.skip(0) =~= list@);
        while j < list.len()
            invariant
                i < needed_fields@.len(),
                access == access_of(user),
                entry == needed_fields@[i as int],
                needed_fields@.skip(i as int)[0] == entry,
                set_id == entry.0,
                list@ == entry.1@,
                access_sorted(user) ==> sorted_by_field(granted@),
                access_sorted(user) ==> authorization(needed_fields@, access) == authorization(
                    needed_fields@.skip(i as int),
                    access,
                ),
                j <= list@.len(),
                granted@ == access[set_id],
                access.contains_key(set_id),
                sorted_by_field(granted@) ==> first_ungranted(list@, granted@) == first_ungranted(
                    list@.skip(j as int),
                    granted@,
                ),
                forall|b: int| 0 <= b < j ==> grants(granted@, #[trigger] list@[b]),
            decreases list@.len() - j,
        {
            proof {
                assert(list@.skip(j as int)[0] == list@[j as int]);
                assert(list@.skip(j as int).drop_first() =~= list@.skip(j + 1));
            }
            if !has_access(granted.as_slice(), list[j]) {
                proof {
                    if access_sorted(user) {
                        assert(!grants(granted@, list@[j as int]));
                        assert(first_ungranted(list@.skip(j as int), granted@) == Some(
                            list@[j as int],
                        ));
                        assert(first_ungranted(entry.1@, access[set_id]) == Some(list@[j as int]));
                        assert(authorization(needed_fields@.skip(i as int), access) == Err::<
                            (),
                            AccessError,
                        >(AccessError::NoAccessToField(list@[j as int])));
                    }
                }
                return Err(AccessError::NoAccessToField(list[j]));
            }
            j = j + 1;
        }
        proof {
            assert(list@.skip(j as int) =~= Seq::<FieldId>::empty());
            assert(set_granted(entry, access));
        }
        i = i + 1;
    }
    proof {
        assert(needed_fields@.skip(i as int) =~= Seq::<(DatasetId, Vec<FieldId>)>::empty());
    }
    Ok(())
}

/// The user holds some right to field `id`.
pub open spec fn holds_right(acc: Seq<Authorisation>, id: FieldId) -> bool {
    exists|i: int| 0 <= i < acc.len() && (#[trigger] acc[i]).field() == id
}

/// Menu entries for changing a user's rights to a dataset: the fields the user holds
/// a right to can be removed, the others added.
pub open spec fn field_actions(fields: Seq<Field>, acc: Seq<Authorisation>) -> (
    Seq<Seq<char>>,
    Seq<Authorisation>,
    Seq<Seq<char>>,
    Seq<FieldId>,
)
    decreases fields.len(),
{
    if fields.len() == 0 {
        (Seq::empty(), Seq::empty(), Seq::empty(), Seq::empty())
    } else {
        let (r, ri, a, ai) = field_actions(fields.drop_last(), acc);
        let f = fields.last();
        if holds_right(acc, f.id) {
            (r.push("remove owned field: "@ + f.name@), ri.push(Authorisation::Owner(f.id)), a, ai)
        } else {
            (r, ri, a.push("add field: "@ + f.name@), ai.push(f.id))
        }
    }
}

fn holds_right_exec(acc: &[Authorisation], wanted: Authorisation) -> (b: bool)
    ensures
        b == holds_right(acc@, wanted.field()),
{
    let mut i: usize = 0;
    while i < acc.len()
        invariant
            i <= acc@.len(),
            forall|k: int| 0 <= k < i ==> (#[trigger] acc@[k]).field() != wanted.field(),
        decreases acc@.len() - i,
    {
        if acc[i] == wanted {
            return true;
        }
        i = i + 1;
    }
    false
}

/// Menu entries for changing a user's rights to a dataset. A right is found by its
/// field alone, so every right found is offered for removal as an owned field.
pub fn make_field_actions(fields: &[Field], accessible_fields: &[Authorisation]) -> (r: (
    Vec<String>,
    Vec<Authorisation>,
    Vec<String>,
    Vec<FieldId>,
))
    ensures
        ({
            let (r0, r1, a0, a1) = field_actions(fields@, accessible_fields@);
            &&& r.0@.len() == r0.len()
            &&& forall|k: int| 0 <= k < r0.len() ==> (#[trigger] r.0@[k])@ == r0[k]
            &&& r.1@ == r1
            &&& r.2@.len() == a0.len()
            &&& forall|k: int| 0 <= k < a0.len() ==> (#[trigger] r.2@[k])@ == a0[k]
            &&& r.3@ == a1
        }),
{
    let mut removable: Vec<String> = Vec::new();
    let mut removable_ids: Vec<Authorisation> = Vec::new();
    let mut addable: Vec<String> = Vec::new();
    let mut addable_ids: Vec<FieldId> = Vec::new();
    let mut i: usize = 0;
    assert(fields@.take(0) =~= Seq::<Field>::empty());
    while i < fields.len()
        invariant
            i <= fields@.len(),
            ({
                let (r0, r1, a0, a1) = field_actions(fields@.take(i as int), accessible_fields@);
                &&& removable@.len() == r0.len()
                &&& forall|k: int| 0 <= k < r0.len() ==> (#[trigger] removable@[k])@ == r0[k]
                &&& removable_ids@ == r1
                &&& addable@.len() == a0.len()
                &&& forall|k: int| 0 <= k < a0.len() ==> (#[trigger] addable@[k])@ == a0[k]
                &&& addable_ids@ == a1
            }),
        decreases fields@.len() - i,
    {
        let field = &fields[i];
        proof {
            assert(fields@.take(i + 1).drop_last() =~= fields@.take(i as int));
        }
        if holds_right_exec(accessible_fields, Authorisation::Owner(field.id)) {
            let mut text = String::from_str("remove owned field: ");
            text.append(field.name.as_str());
            removable.push(text);
            removable_ids.push(Authorisation::Owner(field.id));
        } else if holds_right_exec(accessible_fields, Authorisation::Reader(field.id)) {
            let mut text = String::from_str("remove reader field: ");
            text.append(field.name.as_str());
            removable.push(text);
            removable_ids.push(Authorisation::Reader(field.id));
        } else {
            let mut text = String::from_str("add field: ");
            text.append(field.name.as_str());
            addable.push(text);
            addable_ids.push(field.id);
        }
        i = i + 1;
    }
    assert(fields@.take(fields@.len() as int) =~= fields@);
    (removable, removable_ids, addable, addable_ids)
}

/// The field ids that `picks` points at in `ids`.
pub open spec fn picked(ids: Seq<FieldId>, picks: Seq<usize>) -> Seq<FieldId> {
    picks.map_values(|i: usize| ids[i as int])
}

/// The fields that a list of rights is for.
pub open spec fn fields_of(list: Seq<Authorisation>) -> Seq<FieldId> {
    list.map_values(|a: Authorisation| a.field())
}

/// `s` is in ascending order.
pub open spec fn ascending(s: Seq<FieldId>) -> bool {
    forall|i: int, j: int| 0 <= i < j < s.len() ==> s[i] <= s[j]
}

/// Every pick points into `ids`.
pub open spec fn picks_in(ids: Seq<FieldId>, picks: Seq<usize>) -> bool {
    forall|k: int| 0 <= k < picks.len() ==> (#[trigger] picks[k]) < ids.len()
}

/// The picked fields in ascending order.
fn sorted_picks(ids: &[FieldId], picks: &[usize]) -> (s: Vec<FieldId>)
    requires
        picks_in(ids@, picks@),
    ensures
        ascending(s@),
        s@.to_multiset() == picked(ids@, picks@).to_multiset(),
{
    let mut s: Vec<FieldId> = Vec::new();
    let mut i: usize = 0;
    assert(picked(ids@, picks@.take(0)) =~= Seq::<FieldId>::empty());
    while i < picks.len()
        invariant
            i <= picks@.len(),
            picks_in(ids@, picks@),
            ascending(s@),
            s@.to_multiset() == picked(ids@, picks@.take(i as int)).to_multiset(),
        decreases picks@.len() - i,
    {
        let x = ids[picks[i]];
        let mut p: usize = 0;
        while p < s.len() && s[p] <= x
            invariant
                p <= s@.len(),
                forall|q: int| 0 <= q < p ==> s@[q] <= x,
            decreases s@.len() - p,
        {
            p = p + 1;
        }
        proof {
            let before = s@;
            before.insert_ensures(p as int, x);
            to_multiset_insert(before, p as int, x);
            assert(picked(ids@, picks@.take(i + 1)) =~= picked(ids@, picks@.take(i as int)).push(x));
            to_multiset_build(picked(ids@, picks@.take(i as int)), x);
            assert forall|q: int| p <= q < before.len() implies x < before[q] by {
                assert(x < before[p as int]);
            }
        }
        s.insert(p, x);
        i = i + 1;
    }
    assert(picks@.take(picks@.len() as int) =~= picks@);
    s
}

/// The rights chosen when a dataset is given to a user: an owner right to each
/// field that `owner_picks` points at in `ids`, sorted by field, followed by a reader
/// right to each field that `reader_picks` points at in `ids`, in the order picked.
pub fn select_fields(ids: &[FieldId], owner_picks: &[usize], reader_picks: &[usize]) -> (r: Vec<
    Authorisation,
>)
    requires
        picks_in(ids@, owner_picks@),
        picks_in(ids@, reader_picks@),
    ensures
        r@.len() == owner_picks@.len() + reader_picks@.len(),
        forall|k: int| 0 <= k < owner_picks@.len() ==> #[trigger] r@[k] is Owner,
        sorted_by_field(r@.take(owner_picks@.len() as int)),
        fields_of(r@.take(owner_picks@.len() as int)).to_multiset() == picked(
            ids@,
            owner_picks@,
        ).to_multiset(),
        forall|k: int|
            0 <= k < reader_picks@.len() ==> r@[owner_picks@.len() + k] == Authorisation::Reader(
                ids@[#[trigger] reader_picks@[k] as int],
            ),
{
    let owners = sorted_picks(ids, owner_picks);
    let mut r: Vec<Authorisation> = Vec::new();
    let mut k: usize = 0;
    while k < owners.len()
        invariant
            k <= owners@.len(),
            r@.len() == k,
            forall|j: int| 0 <= j < k ==> r@[j] == Authorisation::Owner(owners@[j]),
        decreases owners@.len() - k,
    {
        r.push(Authorisation::Owner(owners[k]));
        k = k + 1;
    }
    proof {
        assert(owners@.len() == owner_picks@.len()) by {
            vstd::seq_lib::to_multiset_len(owners@);
            vstd::seq_lib::to_multiset_len(picked(ids@, owner_picks@));
        }
        assert(fields_of(r@) =~= owners@);
    }
    let ghost n = r@.len();
    let ghost head = r@;
    let mut k: usize = 0;
    while k < reader_picks.len()
        invariant
            k <= reader_picks@.len(),
            picks_in(ids@, reader_picks@),
            r@.len() == n + k,
            r@.take(n as int) == head,
            forall|j: int| 0 <= j < n ==> #[trigger] r@[j] is Owner,
            forall|j: int|
                0 <= j < k ==> r@[n + j] == Authorisation::Reader(
                    ids@[#[trigger] reader_picks@[j] as int],
                ),
        decreases reader_picks@.len() - k,
    {
        r.push(Authorisation::Reader(ids[reader_picks[k]]));
        proof {
            assert(r@.take(n as int) =~= head);
        }
        k = k + 1;
    }
    r
}


/// What the user picked in the menu for changing a user's rights to a dataset.
pub enum FieldPick {
    /// Remove this right.
    Remove(Authorisation),
    /// Add this right to a field the user holds no right to.
    Add(Authorisation),
}

/// `rights` without the rights to field `f`.
pub open spec fn without_field(rights: Seq<Authorisation>, f: FieldId) -> Seq<Authorisation>
    decreases rights.len(),
{
    if rights.len() == 0 {
        Seq::empty()
    } else {
        let rest = without_field(rights.drop_last(), f);
        if rights.last().field() == f {
            rest
        } else {
            rest.push(rights.last())
        }
    }
}

/// The rights after `pick`: a removed right goes, with every right to its field (rights
/// are told apart by their field); an added right is put last, unless a right to its
/// field is already held.
pub open spec fn rights_after_pick(rights: Seq<Authorisation>, pick: FieldPick) -> Seq<Authorisation> {
    match pick {
        FieldPick::Remove(a) => without_field(rights, a.field()),
        FieldPick::Add(a) => if holds_right(rights, a.field()) {
            rights
        } else {
            rights.push(a)
        },
    }
}

/// One step of changing a user's rights to a dataset: applies `pick` to the rights held,
/// and tells whether none is left, so that the dataset itself is no longer shared with
/// the user.
pub fn apply_field_pick(rights: &mut Vec<Authorisation>, pick: FieldPick) -> (none_left: bool)
    ensures
        final(rights)@ == rights_after_pick(old(rights)@, pick),
        none_left == (final(rights)@.len() == 0),
{
    match pick {
        FieldPick::Remove(a) => {
            let f = a.field_id();
            let mut kept: Vec<Authorisation> = Vec::new();
            let mut i: usize = 0;
            assert(rights@.take(0) =~= Seq::<Authorisation>::empty());
            while i < rights.len()
                invariant
                    i <= rights@.len(),
                    rights@ == old(rights)@,
                    kept@ == without_field(rights@.take(i as int), f),
                decreases rights@.len() - i,
            {
                proof {
                    assert(rights@.take(i + 1).drop_last() =~= rights@.take(i as int));
                }
                let r = rights[i];
                if r.field_id() != f {
                    kept.push(r);
                }
                i = i + 1;
            }
            assert(rights@.take(rights@.len() as int) =~= rights@);
            *rights = kept;
        },
        FieldPick::Add(a) => {
            if !holds_right_exec(rights.as_slice(), a) {
                rights.push(a);
            }
        },
    }
    rights.len() == 0
}

} // verus!
