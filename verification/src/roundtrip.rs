//! Reading the text of a store gives the store back.

use vstd::prelude::*;
use crate::persist::{
    decimal, digit, dump_text, field_flag, find, find_back, flag_text, is_digit,
    lemma_sorted_listing, number_of, parse_from, parse_row, parse_text, row_text, rows_map,
    rows_text, sorted_listing,
};
use crate::record::NodeRecord;
use crate::store::AggregateStore;

verus! {

/// Where `c` stands at `q` and nowhere in `t[from..q]`, `find` finds `q`.
pub proof fn lemma_find_at(t: Seq<char>, from: int, to: int, c: char, q: int)
    requires
        0 <= from <= q < to <= t.len(),
        t[q] == c,
        forall|i: int| from <= i < q ==> t[i] != c,
    ensures
        find(t, from, to, c) == q,
    decreases q - from,
{
    if from < q {
        lemma_find_at(t, from + 1, to, c, q);
    }
}

/// A decimal holds digits only, at least one, and writes its number.
pub proof fn lemma_decimal(n: nat)
    ensures
        decimal(n).len() >= 1,
        forall|i: int| 0 <= i < decimal(n).len() ==> is_digit(#[trigger] decimal(n)[i]),
        number_of(decimal(n)) == Some(n),
    decreases n,
{
    if n >= 10 {
        lemma_decimal(n / 10);
        let front = decimal(n / 10);
        let whole = decimal(n);
        assert(whole.drop_last() =~= front);
        assert(whole.last() == digit((n % 10) as int));
        assert forall|i: int| 0 <= i < whole.len() implies is_digit(#[trigger] whole[i]) by {
            if i < front.len() {
                assert(whole[i] == front[i]);
            }
        }
    }
}

/// Whether `s` holds no `c`.
pub open spec fn is_free_of(s: Seq<char>, c: char) -> bool {
    forall|i: int| 0 <= i < s.len() ==> s[i] != c
}

/// Whether `key` holds no line feed.
pub open spec fn is_plain(key: Seq<char>) -> bool {
    is_free_of(key, '\n')
}

/// Whether no key of `m` holds a line feed.
pub open spec fn has_plain_keys(m: Map<Seq<char>, NodeRecord>) -> bool {
    forall|k: Seq<char>| #[trigger] m.contains_key(k) ==> is_plain(k)
}

/// The row of `key` in `m` as a value.
pub open spec fn row_at(m: Map<Seq<char>, NodeRecord>) -> spec_fn(Seq<char>) -> (Seq<char>, NodeRecord) {
    |k: Seq<char>| (k, m[k])
}

/// The rows of `keys` in `m` as values.
pub open spec fn rows_of(keys: Seq<Seq<char>>, m: Map<Seq<char>, NodeRecord>) -> Seq<
    (Seq<char>, NodeRecord),
> {
    keys.map_values(row_at(m))
}

/// Where the `n`-th comma of the row of `key` with `record` stands.
pub open spec fn comma_at(key: Seq<char>, record: NodeRecord, n: int) -> int {
    let c0 = key.len() as int;
    let c1 = c0 + 1 + decimal(record.size as nat).len();
    let c2 = c1 + 1 + decimal(record.last_modified as nat).len();
    let c3 = c2 + 1 + decimal(record.script_count as nat).len();
    if n <= 0 {
        c0
    } else if n == 1 {
        c1
    } else if n == 2 {
        c2
    } else {
        c3
    }
}

/// `front` with `field` and the character `stop` behind it holds `front` at
/// its start, then `field`, then `stop`.
pub proof fn lemma_field_added(front: Seq<char>, field: Seq<char>, stop: char)
    ensures
        ({
            let whole = front + field + seq![stop];
            &&& whole.len() == front.len() + field.len() + 1
            &&& whole.subrange(0, front.len() as int) == front
            &&& whole.subrange(front.len() as int, (front.len() + field.len()) as int) == field
            &&& whole[(front.len() + field.len()) as int] == stop
        }),
{
    let whole = front + field + seq![stop];
    assert(whole.subrange(0, front.len() as int) =~= front);
    assert(whole.subrange(front.len() as int, (front.len() + field.len()) as int) =~= field);
}

/// What stands at the start of a part of a sequence stands there in the
/// sequence.
pub proof fn lemma_start_of_start(whole: Seq<char>, n: int, a: int, b: int)
    requires
        0 <= a <= b <= n <= whole.len(),
    ensures
        whole.subrange(0, n).subrange(a, b) == whole.subrange(a, b),
        b < n ==> whole.subrange(0, n)[b] == whole[b],
{
    assert(whole.subrange(0, n).subrange(a, b) =~= whole.subrange(a, b));
}

/// Where the fields and the commas of a row stand.
pub proof fn lemma_row_layout(key: Seq<char>, record: NodeRecord)
    ensures
        ({
            let row = row_text(key, record);
            let c0 = comma_at(key, record, 0);
            let c1 = comma_at(key, record, 1);
            let c2 = comma_at(key, record, 2);
            let c3 = comma_at(key, record, 3);
            let end = row.len() - 1;
            &&& 0 <= c0 < c1 < c2 < c3 < end
            &&& row[c0] == ',' && row[c1] == ',' && row[c2] == ',' && row[c3] == ','
            &&& row[end] == '\n'
            &&& row.subrange(0, c0) == key
            &&& row.subrange(c0 + 1, c1) == decimal(record.size as nat)
            &&& row.subrange(c1 + 1, c2) == decimal(record.last_modified as nat)
            &&& row.subrange(c2 + 1, c3) == decimal(record.script_count as nat)
            &&& row.subrange(c3 + 1, end) == flag_text(record.is_allowed)
        }),
{
    let row = row_text(key, record);
    let d1 = decimal(record.size as nat);
    let d2 = decimal(record.last_modified as nat);
    let d3 = decimal(record.script_count as nat);
    let f = flag_text(record.is_allowed);
    lemma_decimal(record.size as nat);
    lemma_decimal(record.last_modified as nat);
    lemma_decimal(record.script_count as nat);
    let none = Seq::<char>::empty();
    let part0 = none + key + seq![','];
    let part1 = part0 + d1 + seq![','];
    let part2 = part1 + d2 + seq![','];
    let part3 = part2 + d3 + seq![','];
    let part4 = part3 + f + seq!['\n'];
    lemma_field_added(none, key, ',');
    lemma_field_added(part0, d1, ',');
    lemma_field_added(part1, d2, ',');
    lemma_field_added(part2, d3, ',');
    lemma_field_added(part3, f, '\n');
    assert(row =~= part4);
    let n0 = part0.len() as int;
    let n1 = part1.len() as int;
    let n2 = part2.len() as int;
    let n3 = part3.len() as int;
    assert(part4.subrange(0, n3) == part3);
    assert(part3.subrange(0, n2) == part2);
    assert(part2.subrange(0, n1) == part1);
    assert(part1.subrange(0, n0) == part0);
    lemma_start_of_start(part4, n3, n2, n3 - 1);
    lemma_start_of_start(part4, n3, 0, n2);
    assert(part4.subrange(0, n2) == part2);
    lemma_start_of_start(part4, n2, n1, n2 - 1);
    lemma_start_of_start(part4, n2, 0, n1);
    assert(part4.subrange(0, n1) == part1);
    lemma_start_of_start(part4, n1, n0, n1 - 1);
    lemma_start_of_start(part4, n1, 0, n0);
    assert(part4.subrange(0, n0) == part0);
    lemma_start_of_start(part4, n0, 0, n0 - 1);
}

/// Where `t[from..mid]` holds no `c`, the search for `c` may start at `mid`.
pub proof fn lemma_find_past(t: Seq<char>, from: int, mid: int, to: int, c: char)
    requires
        0 <= from <= mid <= to <= t.len(),
        forall|i: int| from <= i < mid ==> t[i] != c,
    ensures
        find(t, from, to, c) == find(t, mid, to, c),
    decreases mid - from,
{
    if from < mid {
        lemma_find_past(t, from + 1, mid, to, c);
    }
}

/// Where `t[a..b]` is `field`, and `field` holds no `c`, `t[a..b]` holds none.
pub proof fn lemma_region_free(t: Seq<char>, a: int, b: int, field: Seq<char>, c: char)
    requires
        0 <= a <= b <= t.len(),
        t.subrange(a, b) == field,
        forall|i: int| 0 <= i < field.len() ==> field[i] != c,
    ensures
        forall|j: int| a <= j < b ==> t[j] != c,
{
    assert forall|j: int| a <= j < b implies t[j] != c by {
        assert(t.subrange(a, b)[j - a] == t[j]);
    }
}

/// Neither a decimal nor a flag holds a comma or a line feed.
pub proof fn lemma_fields_plain(n: nat, b: bool)
    ensures
        is_free_of(decimal(n), ','),
        is_free_of(decimal(n), '\n'),
        is_free_of(flag_text(b), ','),
        is_free_of(flag_text(b), '\n'),
{
    lemma_decimal(n);
    assert forall|i: int| 0 <= i < decimal(n).len() implies decimal(n)[i] != ',' && decimal(n)[i]
        != '\n' by {
        assert(is_digit(decimal(n)[i]));
    }
}

/// Where `c` stands at `q` and nowhere in `t[q + 1..to]`, the search from
/// the back finds `q`.
pub proof fn lemma_find_back_at(t: Seq<char>, from: int, to: int, c: char, q: int)
    requires
        0 <= from <= q < to <= t.len(),
        t[q] == c,
        forall|i: int| q < i < to ==> t[i] != c,
    ensures
        find_back(t, from, to, c) == q,
    decreases to - q,
{
    if q + 1 < to {
        lemma_find_back_at(t, from, to - 1, c, q);
    }
}

/// Where a row with a plain key stands in `t` from `p` on, the fields
/// between its commas are those that were written, and the commas and the
/// line feed stand between them.
pub proof fn lemma_row_fields(t: Seq<char>, p: int, key: Seq<char>, record: NodeRecord)
    requires
        0 <= p,
        p + row_text(key, record).len() <= t.len(),
        t.subrange(p, p + row_text(key, record).len()) == row_text(key, record),
    ensures
        ({
            let end = p + row_text(key, record).len() - 1;
            let c0 = p + comma_at(key, record, 0);
            let c1 = p + comma_at(key, record, 1);
            let c2 = p + comma_at(key, record, 2);
            let c3 = p + comma_at(key, record, 3);
            &&& p <= c0 < c1 < c2 < c3 < end < t.len()
            &&& t[c0] == ',' && t[c1] == ',' && t[c2] == ',' && t[c3] == ',' && t[end] == '\n'
            &&& t.subrange(p, c0) == key
            &&& t.subrange(c0 + 1, c1) == decimal(record.size as nat)
            &&& t.subrange(c1 + 1, c2) == decimal(record.last_modified as nat)
            &&& t.subrange(c2 + 1, c3) == decimal(record.script_count as nat)
            &&& t.subrange(c3 + 1, end) == flag_text(record.is_allowed)
        }),
{
    let row = row_text(key, record);
    lemma_row_layout(key, record);
    let c0 = comma_at(key, record, 0);
    let c1 = comma_at(key, record, 1);
    let c2 = comma_at(key, record, 2);
    let c3 = comma_at(key, record, 3);
    let last = row.len() - 1;
    let part = t.subrange(p, p + row.len());
    assert(part[c0] == t[p + c0]);
    assert(part[c1] == t[p + c1]);
    assert(part[c2] == t[p + c2]);
    assert(part[c3] == t[p + c3]);
    assert(part[last] == t[p + last]);
    assert(t.subrange(p, p + c0) =~= part.subrange(0, c0));
    assert(t.subrange(p + c0 + 1, p + c1) =~= part.subrange(c0 + 1, c1));
    assert(t.subrange(p + c1 + 1, p + c2) =~= part.subrange(c1 + 1, c2));
    assert(t.subrange(p + c2 + 1, p + c3) =~= part.subrange(c2 + 1, c3));
    assert(t.subrange(p + c3 + 1, p + last) =~= part.subrange(c3 + 1, last));
}

/// Where a row with a plain key stands in `t` from `p` on, its line ends
/// with it and its commas are the last four of the line.
pub proof fn lemma_row_marks(t: Seq<char>, p: int, key: Seq<char>, record: NodeRecord)
    requires
        0 <= p,
        p + row_text(key, record).len() <= t.len(),
        t.subrange(p, p + row_text(key, record).len()) == row_text(key, record),
        is_plain(key),
    ensures
        ({
            let end = p + row_text(key, record).len() - 1;
            let c0 = p + comma_at(key, record, 0);
            let c1 = p + comma_at(key, record, 1);
            let c2 = p + comma_at(key, record, 2);
            let c3 = p + comma_at(key, record, 3);
            &&& find(t, p, t.len() as int, '\n') == end
            &&& find_back(t, p, end, ',') == c3
            &&& find_back(t, p, c3, ',') == c2
            &&& find_back(t, p, c2, ',') == c1
            &&& find_back(t, p, c1, ',') == c0
            &&& p <= c0 < c1 < c2 < c3 < end
        }),
{
    lemma_row_fields(t, p, key, record);
    lemma_fields_plain(record.size as nat, record.is_allowed);
    lemma_fields_plain(record.last_modified as nat, record.is_allowed);
    lemma_fields_plain(record.script_count as nat, record.is_allowed);
    let end = p + row_text(key, record).len() - 1;
    let c0 = p + comma_at(key, record, 0);
    let c1 = p + comma_at(key, record, 1);
    let c2 = p + comma_at(key, record, 2);
    let c3 = p + comma_at(key, record, 3);
    let size = decimal(record.size as nat);
    let stamp = decimal(record.last_modified as nat);
    let count = decimal(record.script_count as nat);
    let flag = flag_text(record.is_allowed);
    let whole = t.len() as int;
    lemma_region_free(t, c0 + 1, c1, size, ',');
    lemma_region_free(t, c1 + 1, c2, stamp, ',');
    lemma_region_free(t, c2 + 1, c3, count, ',');
    lemma_region_free(t, c3 + 1, end, flag, ',');
    lemma_find_back_at(t, p, end, ',', c3);
    lemma_find_back_at(t, p, c3, ',', c2);
    lemma_find_back_at(t, p, c2, ',', c1);
    lemma_find_back_at(t, p, c1, ',', c0);
    lemma_region_free(t, p, c0, key, '\n');
    lemma_region_free(t, c0 + 1, c1, size, '\n');
    lemma_region_free(t, c1 + 1, c2, stamp, '\n');
    lemma_region_free(t, c2 + 1, c3, count, '\n');
    lemma_region_free(t, c3 + 1, end, flag, '\n');
    lemma_find_at(t, c3 + 1, whole, '\n', end);
    lemma_find_past(t, c3, c3 + 1, whole, '\n');
    lemma_find_past(t, c2 + 1, c3, whole, '\n');
    lemma_find_past(t, c2, c2 + 1, whole, '\n');
    lemma_find_past(t, c1 + 1, c2, whole, '\n');
    lemma_find_past(t, c1, c1 + 1, whole, '\n');
    lemma_find_past(t, c0 + 1, c1, whole, '\n');
    lemma_find_past(t, c0, c0 + 1, whole, '\n');
    lemma_find_past(t, p, c0, whole, '\n');
}

/// A row that stands in `t` from `p` on, with a plain key, is read back as
/// it was written, and the line that holds it ends with it.
pub proof fn lemma_row_read(t: Seq<char>, p: int, key: Seq<char>, record: NodeRecord)
    requires
        0 <= p,
        p + row_text(key, record).len() <= t.len(),
        t.subrange(p, p + row_text(key, record).len()) == row_text(key, record),
        is_plain(key),
    ensures
        find(t, p, t.len() as int, '\n') == p + row_text(key, record).len() - 1,
        row_text(key, record).len() >= 2,
        parse_row(t, p, p + row_text(key, record).len() - 1) == Some((key, record)),
{
    lemma_row_marks(t, p, key, record);
    lemma_row_fields(t, p, key, record);
    lemma_decimal(record.size as nat);
    lemma_decimal(record.last_modified as nat);
    lemma_decimal(record.script_count as nat);
    assert(field_flag(flag_text(record.is_allowed)) == Some(record.is_allowed)) by {
        assert(flag_text(true).len() != flag_text(false).len());
    }
}

/// The rows of a listing with plain keys, standing in `t` from `p` to its
/// end, are read back as they were written.
pub proof fn lemma_rows_read(t: Seq<char>, p: int, keys: Seq<Seq<char>>, m: Map<Seq<char>, NodeRecord>)
    requires
        0 <= p <= t.len(),
        t.subrange(p, t.len() as int) == rows_text(keys, m),
        forall|i: int| 0 <= i < keys.len() ==> is_plain(#[trigger] keys[i]),
    ensures
        parse_from(t, p) == Some(rows_of(keys, m)),
    decreases keys.len(),
{
    if keys.len() == 0 {
        assert(rows_of(keys, m) =~= Seq::empty());
    } else {
        let key = keys[0];
        let rest = keys.drop_first();
        let row = row_text(key, m[key]);
        lemma_rows_front(keys, m);
        let tail = t.subrange(p, t.len() as int);
        assert(tail.len() == t.len() - p);
        assert(tail.len() == row.len() + rows_text(rest, m).len());
        assert(tail.subrange(0, row.len() as int) =~= row);
        assert(tail.subrange(row.len() as int, tail.len() as int) =~= rows_text(rest, m));
        assert(t.subrange(p, p + row.len()) =~= row) by {
            assert(t.subrange(p, t.len() as int).subrange(0, row.len() as int) =~= t.subrange(
                p,
                p + row.len(),
            ));
        }
        lemma_row_read(t, p, key, m[key]);
        let next = p + row.len();
        assert(t.subrange(next, t.len() as int) =~= rows_text(rest, m)) by {
            assert(t.subrange(p, t.len() as int).subrange(row.len() as int, t.len() - p) =~= t.subrange(
                next,
                t.len() as int,
            ));
        }
        assert forall|i: int| 0 <= i < rest.len() implies is_plain(#[trigger] rest[i]) by {
            assert(rest[i] == keys[i + 1]);
        }
        lemma_rows_read(t, next, rest, m);
        assert(seq![(key, m[key])] + rows_of(rest, m) =~= rows_of(keys, m));
        if next >= t.len() {
            assert(rows_of(rest, m) =~= Seq::empty()) by {
                if rest.len() > 0 {
                    lemma_rows_front(rest, m);
                }
            }
        }
    }
}

/// The text of a listing begins with the row of its first key.
pub proof fn lemma_rows_front(keys: Seq<Seq<char>>, m: Map<Seq<char>, NodeRecord>)
    requires
        keys.len() > 0,
    ensures
        rows_text(keys, m) == row_text(keys[0], m[keys[0]]) + rows_text(keys.drop_first(), m),
        row_text(keys[0], m[keys[0]]).len() >= 1,
    decreases keys.len(),
{
    if keys.len() == 1 {
        assert(keys.drop_last() =~= Seq::<Seq<char>>::empty());
        assert(keys.drop_first() =~= Seq::<Seq<char>>::empty());
        assert(rows_text(keys.drop_last(), m) =~= Seq::<char>::empty());
        assert(rows_text(keys, m) =~= row_text(keys[0], m[keys[0]]) + rows_text(keys.drop_first(), m));
    } else {
        let front = keys.drop_last();
        lemma_rows_front(front, m);
        assert(front[0] == keys[0]);
        assert(front.drop_first() =~= keys.drop_first().drop_last());
        assert(keys.drop_first().last() == keys.last());
        assert(rows_text(keys, m) =~= row_text(keys[0], m[keys[0]]) + rows_text(keys.drop_first(), m));
    }
}

/// The rows of a listing that holds each key of `m` once give `m` back.
pub proof fn lemma_rows_map(keys: Seq<Seq<char>>, m: Map<Seq<char>, NodeRecord>)
    ensures
        forall|k: Seq<char>| #[trigger] rows_map(rows_of(keys, m)).contains_key(k) <==> keys.contains(k),
        forall|k: Seq<char>| keys.contains(k) ==> #[trigger] rows_map(rows_of(keys, m))[k] == m[k],
    decreases keys.len(),
{
    let rows = rows_of(keys, m);
    if keys.len() > 0 {
        let front = keys.drop_last();
        lemma_rows_map(front, m);
        assert(rows.len() == keys.len());
        assert(rows.drop_last() =~= rows_of(front, m));
        assert(rows.last() == (keys.last(), m[keys.last()]));
        assert(rows_map(rows) == rows_map(rows_of(front, m)).insert(keys.last(), m[keys.last()]));
        assert forall|k: Seq<char>| keys.contains(k) <==> front.contains(k) || k == keys.last() by {
            if keys.contains(k) {
                let i = choose|i: int| 0 <= i < keys.len() && keys[i] == k;
                if i < front.len() {
                    assert(front[i] == k);
                }
            }
            if front.contains(k) {
                let i = choose|i: int| 0 <= i < front.len() && front[i] == k;
                assert(keys[i] == k);
            }
            assert(keys[keys.len() - 1] == keys.last());
        }
    }
}

/// Reading the text of a store gives the store back, where no key holds a
/// line feed. A key may hold commas.
pub proof fn lemma_round_trip(m: Map<Seq<char>, NodeRecord>)
    requires
        m.dom().finite(),
        has_plain_keys(m),
    ensures
        parse_text(dump_text(m)) matches Some(rows) && rows_map(rows) == m,
{
    let keys = sorted_listing(m);
    let t = dump_text(m);
    lemma_sorted_listing(m);
    assert forall|i: int| 0 <= i < keys.len() implies is_plain(#[trigger] keys[i]) by {
        assert(keys.contains(keys[i]));
    }
    assert(t.subrange(0, t.len() as int) =~= t);
    lemma_rows_read(t, 0, keys, m);
    lemma_rows_map(keys, m);
    assert(rows_map(rows_of(keys, m)) =~= m);
}

/// Reading the text of a well-formed store gives its records back, where no
/// key holds a line feed.
pub proof fn lemma_store_round_trip(store: &AggregateStore)
    requires
        store.wf(),
        has_plain_keys(store@),
    ensures
        parse_text(dump_text(store@)) matches Some(rows) && rows_map(rows) == store@,
{
    store.lemma_wf();
    lemma_round_trip(store@);
}

} // verus!
