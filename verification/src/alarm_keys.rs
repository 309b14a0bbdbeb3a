//! The keys under which alarms are stored: the owner's id and then the alarm's id, both
//! big-endian, so that the alarms of one user lie in one range of keys.
use crate::endian::{be_bytes, lemma_be_bytes_len, lemma_pow256_pos, lemma_pow256_values, pow256, push_be};
use vstd::prelude::*;

verus! {

/// The number that the big-endian `bytes` spell.
pub open spec fn be_value(bytes: Seq<u8>) -> nat
    decreases bytes.len(),
{
    if bytes.len() == 0 {
        0
    } else {
        256 * be_value(bytes.drop_last()) + bytes.last() as nat
    }
}

/// The `n` big-endian bytes of `v` spell `v` modulo `256^n`.
pub proof fn lemma_be_value_of_be_bytes(v: nat, n: nat)
    ensures
        be_value(be_bytes(v, n)) == v % pow256(n),
    decreases n,
{
    lemma_be_bytes_len(v, n);
    if n == 0 {
        assert(be_bytes(v, 0) =~= Seq::<u8>::empty());
    } else {
        lemma_be_value_of_be_bytes(v / 256, (n - 1) as nat);
        let b = be_bytes(v, n);
        assert(b.drop_last() =~= be_bytes(v / 256, (n - 1) as nat));
        assert(pow256(n) == 256 * pow256((n - 1) as nat));
        lemma_pow256_pos((n - 1) as nat);
        vstd::arithmetic::div_mod::lemma_mod_breakdown(v as int, 256, pow256((n - 1) as nat) as int);
    }
}

proof fn lemma_be_value_bound(bytes: Seq<u8>)
    ensures
        be_value(bytes) < pow256(bytes.len()),
    decreases bytes.len(),
{
    if bytes.len() > 0 {
        lemma_be_value_bound(bytes.drop_last());
        assert(pow256(bytes.len()) == 256 * pow256((bytes.len() - 1) as nat));
    }
}

/// Eight bytes of the same value.
pub open spec fn eight(b: u8) -> Seq<u8> {
    Seq::new(8, |i: int| b)
}

/// The key of alarm `alarm_id` of user `user_id`.
pub open spec fn alarm_key_of(user_id: u64, alarm_id: u64) -> Seq<u8> {
    be_bytes(user_id as nat, 8) + be_bytes(alarm_id as nat, 8)
}

/// The first key of the range that holds the alarms of `user_id`.
pub open spec fn range_start(user_id: u64) -> Seq<u8> {
    be_bytes(user_id as nat, 8) + eight(0)
}

/// The end of the range that holds the alarms of `user_id`, itself not in it.
pub open spec fn range_end(user_id: u64) -> Seq<u8> {
    be_bytes(user_id as nat, 8) + eight(0xff)
}

/// `a` comes before `b`, byte strings of one length compared byte by byte.
pub open spec fn before(a: Seq<u8>, b: Seq<u8>) -> bool {
    exists|i: int| #![trigger a.take(i)] 0 <= i < a.len() && a.take(i) == b.take(i) && a[i] < b[i]
}

/// `key` lies in the range from `start` (included) to `end` (excluded).
pub open spec fn in_range(key: Seq<u8>, start: Seq<u8>, end: Seq<u8>) -> bool {
    (start == key || before(start, key)) && before(key, end)
}

/// The key of alarm `alarm_id` of user `user_id`.
pub fn alarm_key(user_id: u64, alarm_id: u64) -> (key: Vec<u8>)
    ensures
        key@ == alarm_key_of(user_id, alarm_id),
{
    let mut key: Vec<u8> = Vec::new();
    push_be(&mut key, user_id, 8);
    push_be(&mut key, alarm_id, 8);
    assert(key@ =~= alarm_key_of(user_id, alarm_id));
    key
}

fn push_eight(out: &mut Vec<u8>, b: u8)
    ensures
        final(out)@ == old(out)@ + eight(b),
{
    let mut k: usize = 0;
    while k < 8
        invariant
            k <= 8,
            out@ == old(out)@ + Seq::new(k as nat, |i: int| b),
        decreases 8 - k,
    {
        out.push(b);
        k = k + 1;
        assert(out@ =~= old(out)@ + Seq::new(k as nat, |i: int| b));
    }
}

/// The range of keys that holds the alarms of `user_id`: its first key and its end.
pub fn user_range(user_id: u64) -> (r: (Vec<u8>, Vec<u8>))
    ensures
        r.0@ == range_start(user_id),
        r.1@ == range_end(user_id),
{
    let mut start: Vec<u8> = Vec::new();
    push_be(&mut start, user_id, 8);
    push_eight(&mut start, 0);
    let mut end: Vec<u8> = Vec::new();
    push_be(&mut end, user_id, 8);
    push_eight(&mut end, 0xff);
    assert(start@ =~= range_start(user_id));
    assert(end@ =~= range_end(user_id));
    (start, end)
}

fn read_be_u64(bytes: &[u8], start: usize) -> (v: u64)
    requires
        start + 8 <= bytes@.len(),
    ensures
        v as nat == be_value(bytes@.subrange(start as int, start + 8)),
{
    let n = bytes.len();
    let mut acc: u64 = 0;
    let mut j: usize = 0;
    proof {
        lemma_pow256_values();
        assert(bytes@.subrange(start as int, start as int) =~= Seq::<u8>::empty());
    }
    while j < 8
        invariant
            j <= 8,
            n == bytes@.len(),
            start + 8 <= n,
            acc as nat == be_value(bytes@.subrange(start as int, start + j)),
            pow256(8) == 0x1_0000_0000_0000_0000,
        decreases 8 - j,
    {
        let ghost head = bytes@.subrange(start as int, start + j);
        proof {
            assert(bytes@.subrange(start as int, start + j + 1).drop_last() =~= head);
            lemma_be_value_bound(head);
            lemma_pow256_monotone(head.len(), 7);
            assert(pow256(8) == 256 * pow256(7));
        }
        acc = 256 * acc + bytes[start + j] as u64;
        j = j + 1;
    }
    acc
}

proof fn lemma_pow256_monotone(a: nat, b: nat)
    requires
        a <= b,
    ensures
        pow256(a) <= pow256(b),
    decreases b,
{
    if a < b {
        lemma_pow256_monotone(a, (b - 1) as nat);
        lemma_pow256_pos((b - 1) as nat);
    }
}

/// The user id and the alarm id a key holds.
pub fn key_ids(key: &[u8]) -> (r: (u64, u64))
    requires
        key@.len() >= 16,
    ensures
        r.0 as nat == be_value(key@.subrange(0, 8)),
        r.1 as nat == be_value(key@.subrange(8, 16)),
{
    (read_be_u64(key, 0), read_be_u64(key, 8))
}

proof fn lemma_be_bytes_u64(v: u64)
    ensures
        be_bytes(v as nat, 8).len() == 8,
        be_value(be_bytes(v as nat, 8)) == v,
{
    lemma_be_bytes_len(v as nat, 8);
    lemma_be_value_of_be_bytes(v as nat, 8);
    lemma_pow256_values();
}

/// The ids read back from the key of an alarm are the ids it was made from.
pub proof fn lemma_key_ids_of_alarm_key(user_id: u64, alarm_id: u64)
    ensures
        be_value(alarm_key_of(user_id, alarm_id).subrange(0, 8)) == user_id,
        be_value(alarm_key_of(user_id, alarm_id).subrange(8, 16)) == alarm_id,
{
    lemma_be_bytes_u64(user_id);
    lemma_be_bytes_u64(alarm_id);
    let k = alarm_key_of(user_id, alarm_id);
    assert(k.subrange(0, 8) =~= be_bytes(user_id as nat, 8));
    assert(k.subrange(8, 16) =~= be_bytes(alarm_id as nat, 8));
}

/// Two different byte strings of one length first differ somewhere.
proof fn lemma_first_difference(x: Seq<u8>, y: Seq<u8>, i: int) -> (j: int)
    requires
        x.len() == y.len(),
        x != y,
        0 <= i <= x.len(),
        x.take(i) == y.take(i),
    ensures
        i <= j < x.len(),
        x.take(j) == y.take(j),
        x[j] != y[j],
    decreases x.len() - i,
{
    if i == x.len() {
        assert(x =~= x.take(i));
        assert(y =~= y.take(i));
        i
    } else if x[i] != y[i] {
        i
    } else {
        assert(x.take(i + 1) =~= x.take(i).push(x[i]));
        assert(y.take(i + 1) =~= y.take(i).push(y[i]));
        lemma_first_difference(x, y, i + 1)
    }
}

proof fn lemma_max_bytes()
    ensures
        be_bytes(0xffff_ffff_ffff_ffffnat, 8) == eight(0xff),
{
    reveal_with_fuel(be_bytes, 9);
    assert(be_bytes(0xffff_ffff_ffff_ffffnat, 8) =~= eight(0xff));
}

/// Where `x` and `y` are equal before `i` and differ at `i`, a byte by byte comparison of
/// strings that start with them is decided at `i`.
proof fn lemma_decided_at(a: Seq<u8>, b: Seq<u8>, i: int)
    requires
        a.len() == b.len(),
        0 <= i < a.len(),
        a.take(i) == b.take(i),
        a[i] != b[i],
    ensures
        a != b,
        before(a, b) <==> a[i] < b[i],
{
    if a[i] < b[i] {
        assert(a.take(i) == b.take(i));
        assert(before(a, b));
    }
    if before(a, b) {
        let j = choose|j: int| 0 <= j < a.len() && a.take(j) == b.take(j) && a[j] < b[j];
        assert(0 <= j < a.len() && a.take(j) == b.take(j) && a[j] < b[j]);
        if j < i {
            assert(a.take(i)[j] == a[j] && b.take(i)[j] == b[j]);
            assert(false);
        } else if j > i {
            assert(a.take(j)[i] == a[i] && b.take(j)[i] == b[i]);
            assert(false);
        }
        assert(a[i] < b[i]);
    }
}

/// The range of a user holds the keys of that user's alarms, all but that of an alarm
/// whose id is the largest `u64`, and no key of another user's alarm.
pub proof fn lemma_user_range_holds_own_keys(user_id: u64, owner: u64, alarm_id: u64)
    ensures
        in_range(alarm_key_of(owner, alarm_id), range_start(user_id), range_end(user_id)) <==> (
        owner == user_id && alarm_id != u64::MAX),
{
    let bu = be_bytes(user_id as nat, 8);
    let bo = be_bytes(owner as nat, 8);
    let ba = be_bytes(alarm_id as nat, 8);
    lemma_be_bytes_u64(user_id);
    lemma_be_bytes_u64(owner);
    lemma_be_bytes_u64(alarm_id);
    let key = alarm_key_of(owner, alarm_id);
    let start = range_start(user_id);
    let end = range_end(user_id);
    if owner != user_id {
        assert(bo.take(0) =~= bu.take(0));
        let i = lemma_first_difference(bo, bu, 0);
        assert forall|k: int| 0 <= k < i implies bo[k] == bu[k] by {
            assert(bo.take(i)[k] == bu.take(i)[k]);
        }
        assert(key.take(i) =~= start.take(i));
        assert(key.take(i) =~= end.take(i));
        assert(key[i] == bo[i] && start[i] == bu[i] && end[i] == bu[i]);
        lemma_decided_at(start, key, i);
        lemma_decided_at(key, end, i);
    } else {
        lemma_max_bytes();
        if alarm_id == u64::MAX {
            assert(key =~= end);
            if before(key, end) {
                let j = choose|j: int| 0 <= j < key.len() && key.take(j) == end.take(j) && key[j] < end[j];
                assert(key[j] == end[j]);
            }
        } else {
            lemma_be_value_of_be_bytes(0xffff_ffff_ffff_ffffnat, 8);
            lemma_pow256_values();
            assert(ba != eight(0xff));
            assert(ba.take(0) =~= eight(0xff).take(0));
            let j = lemma_first_difference(ba, eight(0xff), 0);
            assert forall|k: int| 0 <= k < j implies ba[k] == 0xff by {
                assert(ba.take(j)[k] == eight(0xff).take(j)[k]);
            }
            assert(key.take(8 + j) =~= end.take(8 + j));
            assert(key[8 + j] == ba[j] && end[8 + j] == 0xff);
            lemma_decided_at(key, end, 8 + j);
            if ba != eight(0) {
                assert(ba.take(0) =~= eight(0).take(0));
                let z = lemma_first_difference(ba, eight(0), 0);
                assert forall|k: int| 0 <= k < z implies ba[k] == 0 by {
                    assert(ba.take(z)[k] == eight(0).take(z)[k]);
                }
                assert(start.take(8 + z) =~= key.take(8 + z));
                assert(key[8 + z] == ba[z] && start[8 + z] == 0);
                lemma_decided_at(start, key, 8 + z);
            } else {
                assert(start =~= key);
            }
        }
    }
}

} // verus!
