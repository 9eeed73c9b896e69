//! The store as text: one row for each path, the keys in rising order.
//!
//! A row holds the path, the size, the modification time, the script count
//! and the flag, with a comma between two fields and a line feed at its end:
//! `/r/b/c,5,1700000000,1,true`. Nothing is quoted. A row is read from its
//! end, so a path may hold commas of its own; one that holds a line feed
//! does not come back from its row.

use vstd::prelude::*;
use crate::record::NodeRecord;
use crate::store::{order_put, views, AggregateStore};
use crate::text::{chars_of, push_char, string_of};

verus! {

/// The character that stands for the digit `d`.
pub open spec fn digit(d: int) -> char {
    (48 + d) as char
}

/// Whether `c` is one of `0` to `9`.
pub open spec fn is_digit(c: char) -> bool {
    '0' <= c && c <= '9'
}

/// `n` in decimal, without leading zeros.
pub open spec fn decimal(n: nat) -> Seq<char>
    decreases n,
{
    if n < 10 {
        seq![digit(n as int)]
    } else {
        decimal(n / 10).push(digit((n % 10) as int))
    }
}

/// The number that the digits of `s` write; `None` where `s` is empty or
/// holds anything but digits.
pub open spec fn number_of(s: Seq<char>) -> Option<nat>
    decreases s.len(),
{
    if s.len() == 0 || !is_digit(s.last()) {
        None
    } else if s.len() == 1 {
        Some((s.last() as int - 48) as nat)
    } else {
        match number_of(s.drop_last()) {
            None => None,
            Some(v) => Some((v * 10 + (s.last() as int - 48)) as nat),
        }
    }
}

/// A field that holds a number of 64 bits.
pub open spec fn field_u64(s: Seq<char>) -> Option<u64> {
    match number_of(s) {
        Some(v) => if v <= u64::MAX {
            Some(v as u64)
        } else {
            None
        },
        None => None,
    }
}

/// How a flag is written.
pub open spec fn flag_text(b: bool) -> Seq<char> {
    if b {
        seq!['t', 'r', 'u', 'e']
    } else {
        seq!['f', 'a', 'l', 's', 'e']
    }
}

/// A field that holds a flag.
pub open spec fn field_flag(s: Seq<char>) -> Option<bool> {
    if s == flag_text(true) {
        Some(true)
    } else if s == flag_text(false) {
        Some(false)
    } else {
        None
    }
}

/// The row of `key` with `record`.
pub open spec fn row_text(key: Seq<char>, record: NodeRecord) -> Seq<char> {
    key + seq![','] + decimal(record.size as nat) + seq![','] + decimal(record.last_modified as nat)
        + seq![','] + decimal(record.script_count as nat) + seq![','] + flag_text(
        record.is_allowed,
    ) + seq!['\n']
}

/// The rows of `keys` in turn, each with what `m` holds for it.
pub open spec fn rows_text(keys: Seq<Seq<char>>, m: Map<Seq<char>, NodeRecord>) -> Seq<char>
    decreases keys.len(),
{
    if keys.len() == 0 {
        Seq::empty()
    } else {
        rows_text(keys.drop_last(), m) + row_text(keys.last(), m[keys.last()])
    }
}

/// Whether `a` comes before `b`, or is `b`, where strings are compared
/// character by character and a string comes after each of its prefixes.
pub open spec fn lex_le(a: Seq<char>, b: Seq<char>) -> bool
    decreases a.len(),
{
    if a.len() == 0 {
        true
    } else if b.len() == 0 {
        false
    } else if a[0] != b[0] {
        a[0] < b[0]
    } else {
        lex_le(a.drop_first(), b.drop_first())
    }
}

/// Whether `keys` lists the keys of `m`, each once, in rising order.
pub open spec fn lists_sorted(keys: Seq<Seq<char>>, m: Map<Seq<char>, NodeRecord>) -> bool {
    &&& keys.no_duplicates()
    &&& forall|k: Seq<char>| #[trigger] keys.contains(k) <==> m.contains_key(k)
    &&& forall|i: int, j: int| 0 <= i < j < keys.len() ==> lex_le(#[trigger] keys[i], #[trigger] keys[j])
}

/// `lex_le` as a function value.
pub open spec fn lex_order() -> spec_fn(Seq<char>, Seq<char>) -> bool {
    |a: Seq<char>, b: Seq<char>| lex_le(a, b)
}

/// The keys of `m`, each once, in rising order.
pub open spec fn sorted_listing(m: Map<Seq<char>, NodeRecord>) -> Seq<Seq<char>> {
    m.dom().to_seq().sort_by(lex_order())
}

/// Of two strings one comes before the other.
pub proof fn lemma_lex_total(a: Seq<char>, b: Seq<char>)
    ensures
        lex_le(a, b) || lex_le(b, a),
    decreases a.len(),
{
    if a.len() > 0 && b.len() > 0 && a[0] == b[0] {
        lemma_lex_total(a.drop_first(), b.drop_first());
    }
}

/// What comes before a string comes before all that comes after it.
pub proof fn lemma_lex_transitive(a: Seq<char>, b: Seq<char>, c: Seq<char>)
    requires
        lex_le(a, b),
        lex_le(b, c),
    ensures
        lex_le(a, c),
    decreases a.len(),
{
    if a.len() > 0 && b.len() > 0 && c.len() > 0 && a[0] == b[0] && b[0] == c[0] {
        lemma_lex_transitive(a.drop_first(), b.drop_first(), c.drop_first());
    }
}

/// The order of strings is a total order.
pub proof fn lemma_lex_order()
    ensures
        vstd::relations::total_ordering(lex_order()),
{
    let r = lex_order();
    assert forall|x: Seq<char>| #[trigger] r(x, x) by {
        lemma_lex_reflexive(x);
    }
    assert forall|x: Seq<char>, y: Seq<char>| #[trigger] r(x, y) && #[trigger] r(y, x) implies x
        == y by {
        lemma_lex_antisymmetric(x, y);
    }
    assert forall|x: Seq<char>, y: Seq<char>, z: Seq<char>| #[trigger]
        r(x, y) && #[trigger] r(y, z) implies r(x, z) by {
        lemma_lex_transitive(x, y, z);
    }
    assert forall|x: Seq<char>, y: Seq<char>| #[trigger] r(x, y) || #[trigger] r(y, x) by {
        lemma_lex_total(x, y);
    }
}

/// The sequence of a finite set holds no element twice.
pub proof fn lemma_to_seq_distinct<A>(s: Set<A>)
    requires
        s.finite(),
    ensures
        s.to_seq().no_duplicates(),
        s.to_seq().to_set() == s,
    decreases s.len(),
{
    s.lemma_to_seq_to_set_id();
    if s.len() > 0 {
        let x = s.choose();
        let rest = s.remove(x).to_seq();
        lemma_to_seq_distinct(s.remove(x));
        assert(s.to_seq() =~= seq![x] + rest);
        assert(!rest.contains(x)) by {
            if rest.contains(x) {
                assert(rest.to_set().contains(x));
            }
        }
        assert forall|i: int, j: int| 0 <= i < j < s.to_seq().len() implies s.to_seq()[i]
            != s.to_seq()[j] by {
            assert(s.to_seq()[j] == rest[j - 1]);
            if i > 0 {
                assert(s.to_seq()[i] == rest[i - 1]);
            } else {
                assert(rest.contains(rest[j - 1]));
            }
        }
    }
}

/// A finite map has a sorted listing, and `sorted_listing` is it.
pub proof fn lemma_sorted_listing(m: Map<Seq<char>, NodeRecord>)
    requires
        m.dom().finite(),
    ensures
        lists_sorted(sorted_listing(m), m),
{
    let unsorted = m.dom().to_seq();
    let sorted = sorted_listing(m);
    lemma_to_seq_distinct(m.dom());
    lemma_lex_order();
    unsorted.lemma_sort_by_ensures(lex_order());
    broadcast use vstd::seq_lib::to_multiset_contains;
    unsorted.lemma_multiset_has_no_duplicates();
    sorted.lemma_multiset_has_no_duplicates_conv();
    assert forall|k: Seq<char>| #[trigger] sorted.contains(k) <==> m.contains_key(k) by {
        assert(sorted.contains(k) <==> sorted.to_multiset().count(k) > 0);
        assert(unsorted.contains(k) <==> unsorted.to_multiset().count(k) > 0);
        assert(unsorted.contains(k) <==> unsorted.to_set().contains(k));
    }
    assert forall|i: int, j: int| 0 <= i < j < sorted.len() implies lex_le(
        #[trigger] sorted[i],
        #[trigger] sorted[j],
    ) by {
        assert(lex_order()(sorted[i], sorted[j]));
    }
}

/// The text of `m`: the rows of its keys in rising order.
pub open spec fn dump_text(m: Map<Seq<char>, NodeRecord>) -> Seq<char> {
    rows_text(sorted_listing(m), m)
}

/// Two strings that come before each other are one string.
pub proof fn lemma_lex_antisymmetric(a: Seq<char>, b: Seq<char>)
    requires
        lex_le(a, b),
        lex_le(b, a),
    ensures
        a == b,
    decreases a.len(),
{
    if a.len() == 0 || b.len() == 0 {
        assert(a =~= b);
    } else {
        lemma_lex_antisymmetric(a.drop_first(), b.drop_first());
        assert(a =~= seq![a[0]] + a.drop_first());
        assert(b =~= seq![b[0]] + b.drop_first());
    }
}

/// A map has one sorted listing only.
pub proof fn lemma_sorted_unique(a: Seq<Seq<char>>, b: Seq<Seq<char>>, m: Map<Seq<char>, NodeRecord>)
    requires
        lists_sorted(a, m),
        lists_sorted(b, m),
    ensures
        a == b,
{
    assert(a.to_set() =~= b.to_set());
    a.unique_seq_to_set();
    b.unique_seq_to_set();
    assert(a.len() == b.len());
    lemma_sorted_agree(a, b, m, a.len() as int);
    assert(a =~= b);
}

/// Two sorted listings of one map agree on their first `n` places.
pub proof fn lemma_sorted_agree(
    a: Seq<Seq<char>>,
    b: Seq<Seq<char>>,
    m: Map<Seq<char>, NodeRecord>,
    n: int,
)
    requires
        lists_sorted(a, m),
        lists_sorted(b, m),
        a.len() == b.len(),
        0 <= n <= a.len(),
    ensures
        forall|i: int| 0 <= i < n ==> a[i] == b[i],
    decreases n,
{
    if n > 0 {
        lemma_sorted_agree(a, b, m, n - 1);
        let i = n - 1;
        assert(a.contains(a[i]));
        assert(b.contains(a[i]));
        let j = choose|j: int| 0 <= j < b.len() && b[j] == a[i];
        if j < i {
            assert(a[j] == b[j]);
            assert(false);
        }
        assert(b.contains(b[i]));
        assert(a.contains(b[i]));
        let k = choose|k: int| 0 <= k < a.len() && a[k] == b[i];
        if k < i {
            assert(a[k] == b[k]);
            assert(false);
        }
        assert(lex_le(b[i], b[j])) by {
            if i < j {
            } else {
                lemma_lex_reflexive(b[i]);
            }
        }
        assert(lex_le(a[i], a[k])) by {
            if i < k {
            } else {
                lemma_lex_reflexive(a[i]);
            }
        }
        lemma_lex_antisymmetric(a[i], b[i]);
    }
}

/// Every string comes before itself.
pub proof fn lemma_lex_reflexive(a: Seq<char>)
    ensures
        lex_le(a, a),
    decreases a.len(),
{
    if a.len() > 0 {
        lemma_lex_reflexive(a.drop_first());
    }
}

/// `<[String]>::sort`: the strings afterwards are those before, in rising
/// order, where strings are compared character by character.
#[verifier::external_body]
fn sort_strings(v: &mut Vec<String>)
    ensures
        views(final(v)@).to_multiset() == views(old(v)@).to_multiset(),
        forall|i: int, j: int|
            0 <= i < j < final(v).len() ==> lex_le(#[trigger] final(v)[i]@, #[trigger] final(v)[j]@),
{
    v.sort()
}

/// Appends `n` in decimal.
fn write_decimal(out: &mut String, n: u64)
    ensures
        final(out)@ == old(out)@ + decimal(n as nat),
    decreases n,
{
    if n >= 10 {
        write_decimal(out, n / 10);
    }
    let d = (n % 10) as u8;
    push_char(out, (48 + d) as char);
    assert(out@ =~= old(out)@ + decimal(n as nat));
}

/// Appends the row of `key` with `record`.
fn write_row(out: &mut String, key: &str, record: &NodeRecord)
    ensures
        final(out)@ == old(out)@ + row_text(key@, *record),
{
    out.append(key);
    push_char(out, ',');
    write_decimal(out, record.size);
    push_char(out, ',');
    write_decimal(out, record.last_modified);
    push_char(out, ',');
    write_decimal(out, record.script_count);
    push_char(out, ',');
    if record.is_allowed {
        push_char(out, 't');
        push_char(out, 'r');
        push_char(out, 'u');
        push_char(out, 'e');
    } else {
        push_char(out, 'f');
        push_char(out, 'a');
        push_char(out, 'l');
        push_char(out, 's');
        push_char(out, 'e');
    }
    push_char(out, '\n');
    assert(out@ =~= old(out)@ + row_text(key@, *record));
}

/// The keys of `store` in rising order.
pub fn sorted_keys(store: &AggregateStore) -> (keys: Vec<String>)
    requires
        store.wf(),
    ensures
        lists_sorted(views(keys@), store@),
{
    let mut keys: Vec<String> = Vec::new();
    let n = store.len();
    let mut i: usize = 0;
    assert(views(keys@) =~= store.order().take(0));
    while i < n
        invariant
            n == store.order().len(),
            i <= n,
            views(keys@) == store.order().take(i as int),
        decreases n - i,
    {
        let ghost before = views(keys@);
        let key = store.key(i).clone();
        assert(key@ == store.order()[i as int]);
        keys.push(key);
        assert(views(keys@) =~= before.push(store.order()[i as int]));
        assert(views(keys@) =~= store.order().take(i + 1));
        i += 1;
    }
    assert(store.order().take(n as int) =~= store.order());
    let ghost unsorted = views(keys@);
    sort_strings(&mut keys);
    proof {
        let sorted = views(keys@);
        store.lemma_wf();
        broadcast use vstd::seq_lib::to_multiset_contains;
        unsorted.lemma_multiset_has_no_duplicates();
        sorted.lemma_multiset_has_no_duplicates_conv();
        assert forall|k: Seq<char>| #[trigger] sorted.contains(k) <==> store@.contains_key(k) by {
            assert(sorted.contains(k) <==> sorted.to_multiset().count(k) > 0);
            assert(unsorted.contains(k) <==> unsorted.to_multiset().count(k) > 0);
        }
        assert forall|i: int, j: int| 0 <= i < j < sorted.len() implies lex_le(
            #[trigger] sorted[i],
            #[trigger] sorted[j],
        ) by {
            assert(sorted[i] == keys[i]@ && sorted[j] == keys[j]@);
        }
    }
    keys
}

/// The store as text: the rows of its keys in rising order.
pub fn dump(store: &AggregateStore) -> (text: String)
    requires
        store.wf(),
    ensures
        text@ == dump_text(store@),
{
    let keys = sorted_keys(store);
    proof {
        store.lemma_wf();
        lemma_sorted_listing(store@);
        lemma_sorted_unique(views(keys@), sorted_listing(store@), store@);
    }
    let mut text = String::new();
    let mut i: usize = 0;
    assert(rows_text(views(keys@).take(0), store@) =~= Seq::<char>::empty());
    while i < keys.len()
        invariant
            i <= keys.len(),
            lists_sorted(views(keys@), store@),
            views(keys@) == sorted_listing(store@),
            text@ == rows_text(views(keys@).take(i as int), store@),
        decreases keys.len() - i,
    {
        let key = keys[i].as_str();
        proof {
            assert(views(keys@).take(i + 1).drop_last() =~= views(keys@).take(i as int));
            assert(views(keys@).take(i + 1).last() == key@);
            assert(views(keys@)[i as int] == key@);
            assert(views(keys@).contains(key@));
        }
        let record = match store.get(key) {
            Some(r) => r,
            None => NodeRecord::default(),
        };
        write_row(&mut text, key, &record);
        i += 1;
    }
    assert(views(keys@).take(i as int) =~= views(keys@));
    text
}

/// The first place in `t[from..to]` that holds `c`; `to` where none does.
pub open spec fn find(t: Seq<char>, from: int, to: int, c: char) -> int
    decreases to - from,
{
    if from >= to {
        to
    } else if t[from] == c {
        from
    } else {
        find(t, from + 1, to, c)
    }
}

/// The last place in `t[from..to]` that holds `c`; the place before `from`
/// where none does.
pub open spec fn find_back(t: Seq<char>, from: int, to: int, c: char) -> int
    decreases to - from,
{
    if from >= to {
        from - 1
    } else if t[to - 1] == c {
        to - 1
    } else {
        find_back(t, from, to - 1, c)
    }
}

/// The row that `t[from..to]` holds. Its last four commas part five fields:
/// what stands before them is the path, with any comma of its own, and the
/// four fields behind them are the numbers and the flag. `None` where it
/// holds fewer than four commas, or a field that is not what it should be.
pub open spec fn parse_row(t: Seq<char>, from: int, to: int) -> Option<(Seq<char>, NodeRecord)> {
    let c3 = find_back(t, from, to, ',');
    let c2 = find_back(t, from, c3, ',');
    let c1 = find_back(t, from, c2, ',');
    let c0 = find_back(t, from, c1, ',');
    if c0 < from {
        None
    } else {
        match (
            field_u64(t.subrange(c0 + 1, c1)),
            field_u64(t.subrange(c1 + 1, c2)),
            field_u64(t.subrange(c2 + 1, c3)),
            field_flag(t.subrange(c3 + 1, to)),
        ) {
            (Some(size), Some(last_modified), Some(script_count), Some(is_allowed)) => Some(
                (t.subrange(from, c0), NodeRecord { size, last_modified, script_count, is_allowed }),
            ),
            _ => None,
        }
    }
}

/// The rows that `t[from..]` holds, one on each line; an empty line holds
/// none, and the last line may lack its line feed. `None` where a line holds
/// something that is no row.
pub open spec fn parse_from(t: Seq<char>, from: int) -> Option<Seq<(Seq<char>, NodeRecord)>>
    decreases t.len() - from,
{
    if from < 0 || from >= t.len() {
        Some(Seq::empty())
    } else {
        proof {
            lemma_find(t, from, t.len() as int, '\n');
        }
        let end = find(t, from, t.len() as int, '\n');
        if end <= from {
            parse_from(t, from + 1)
        } else {
            match parse_row(t, from, end) {
                None => None,
                Some(row) => if end >= t.len() {
                    Some(seq![row])
                } else {
                    match parse_from(t, end + 1) {
                        None => None,
                        Some(rest) => Some(seq![row] + rest),
                    }
                },
            }
        }
    }
}

/// The rows that `t` holds.
pub open spec fn parse_text(t: Seq<char>) -> Option<Seq<(Seq<char>, NodeRecord)>> {
    parse_from(t, 0)
}

/// The map that `rows` give when they are written in turn: a later row
/// replaces an earlier one of the same key.
pub open spec fn rows_map(rows: Seq<(Seq<char>, NodeRecord)>) -> Map<Seq<char>, NodeRecord>
    decreases rows.len(),
{
    if rows.len() == 0 {
        Map::empty()
    } else {
        rows_map(rows.drop_last()).insert(rows.last().0, rows.last().1)
    }
}

/// The order in which the keys of `rows` first come.
pub open spec fn rows_order(rows: Seq<(Seq<char>, NodeRecord)>) -> Seq<Seq<char>>
    decreases rows.len(),
{
    if rows.len() == 0 {
        Seq::empty()
    } else {
        order_put(rows_order(rows.drop_last()), rows.last().0)
    }
}

/// `find` stays between its bounds, and nothing before what it finds is `c`.
pub proof fn lemma_find(t: Seq<char>, from: int, to: int, c: char)
    requires
        0 <= from <= to <= t.len(),
    ensures
        from <= find(t, from, to, c) <= to,
        find(t, from, to, c) < to ==> t[find(t, from, to, c)] == c,
        forall|i: int| from <= i < find(t, from, to, c) ==> t[i] != c,
    decreases to - from,
{
    if from < to && t[from] != c {
        lemma_find(t, from + 1, to, c);
    }
}

/// The text of a store could not be read.
#[derive(Debug, PartialEq, Eq)]
pub enum LoadError {
    /// A line holds something that is no row.
    Malformed,
}

/// The first place in `t[from..to]` that holds `c`; `to` where none does.
fn find_char(t: &Vec<char>, from: usize, to: usize, c: char) -> (r: usize)
    requires
        from <= to <= t.len(),
    ensures
        r == find(t@, from as int, to as int, c),
        from <= r <= to,
{
    let mut i: usize = from;
    while i < to && t[i] != c
        invariant
            from <= i <= to <= t.len(),
            find(t@, i as int, to as int, c) == find(t@, from as int, to as int, c),
        decreases to - i,
    {
        i += 1;
    }
    i
}

/// The last place in `t[from..to]` that holds `c`, if one does.
fn find_back_char(t: &Vec<char>, from: usize, to: usize, c: char) -> (r: Option<usize>)
    requires
        from <= to <= t.len(),
    ensures
        match r {
            Some(i) => i == find_back(t@, from as int, to as int, c) && from <= i < to,
            None => find_back(t@, from as int, to as int, c) == from - 1,
        },
{
    let mut i: usize = to;
    while i > from && t[i - 1] != c
        invariant
            from <= i <= to <= t.len(),
            find_back(t@, from as int, i as int, c) == find_back(t@, from as int, to as int, c),
        decreases i - from,
    {
        i -= 1;
    }
    if i > from {
        Some(i - 1)
    } else {
        None
    }
}

/// The number that `t[from..to]` writes, if it fits in 64 bits.
fn read_u64(t: &Vec<char>, from: usize, to: usize) -> (r: Option<u64>)
    requires
        from <= to <= t.len(),
    ensures
        r == field_u64(t@.subrange(from as int, to as int)),
{
    let ghost s = t@.subrange(from as int, to as int);
    if from == to {
        return None;
    }
    let mut value: u64 = 0;
    let mut i: usize = from;
    while i < to
        invariant
            from <= i <= to <= t.len(),
            s == t@.subrange(from as int, to as int),
            i == from ==> value == 0,
            i > from ==> number_of(s.take(i - from)) == Some(value as nat),
        decreases to - i,
    {
        let c = t[i];
        let ghost k = i - from;
        let ghost part = s.take(k + 1);
        proof {
            assert(part.drop_last() =~= s.take(k));
            assert(part.last() == c);
            assert(part.len() == k + 1);
        }
        if !('0' <= c && c <= '9') {
            proof {
                assert(number_of(part) is None);
                lemma_number_prefix(s, k + 1);
            }
            return None;
        }
        let d = (c as u32 - 48) as u64;
        assert(d == c as int - 48);
        if value > (u64::MAX - d) / 10 {
            proof {
                assert(value * 10 + d > u64::MAX);
                assert(number_of(part) == Some((value * 10 + d) as nat));
                lemma_number_grows(s, k + 1);
            }
            return None;
        }
        assert(number_of(part) == Some((value * 10 + d) as nat));
        value = value * 10 + d;
        i += 1;
    }
    assert(s.take(to - from) =~= s);
    Some(value)
}

/// The flag that `t[from..to]` writes.
fn read_flag(t: &Vec<char>, from: usize, to: usize) -> (r: Option<bool>)
    requires
        from <= to <= t.len(),
    ensures
        r == field_flag(t@.subrange(from as int, to as int)),
{
    let ghost s = t@.subrange(from as int, to as int);
    if to - from == 4 && t[from] == 't' && t[from + 1] == 'r' && t[from + 2] == 'u' && t[from + 3]
        == 'e' {
        assert(s =~= flag_text(true));
        Some(true)
    } else if to - from == 5 && t[from] == 'f' && t[from + 1] == 'a' && t[from + 2] == 'l' && t[from
        + 3] == 's' && t[from + 4] == 'e' {
        assert(s =~= flag_text(false));
        Some(false)
    } else {
        proof {
            if s == flag_text(true) {
                assert(s.len() == 4 && s[0] == 't' && s[1] == 'r' && s[2] == 'u' && s[3] == 'e');
            }
            if s == flag_text(false) {
                assert(s.len() == 5 && s[0] == 'f' && s[1] == 'a' && s[2] == 'l' && s[3] == 's'
                    && s[4] == 'e');
            }
        }
        None
    }
}

/// The row that `t[from..to]` holds.
fn read_row(t: &Vec<char>, from: usize, to: usize) -> (r: Option<(String, NodeRecord)>)
    requires
        from <= to <= t.len(),
    ensures
        match parse_row(t@, from as int, to as int) {
            None => r is None,
            Some(row) => r matches Some(got) && got.0@ == row.0 && got.1 == row.1,
        },
{
    let c3 = match find_back_char(t, from, to, ',') {
        Some(i) => i,
        None => {
            proof {
                lemma_find_back_none(t@, from as int, ',');
            }
            return None;
        },
    };
    let c2 = match find_back_char(t, from, c3, ',') {
        Some(i) => i,
        None => {
            proof {
                lemma_find_back_none(t@, from as int, ',');
            }
            return None;
        },
    };
    let c1 = match find_back_char(t, from, c2, ',') {
        Some(i) => i,
        None => {
            proof {
                lemma_find_back_none(t@, from as int, ',');
            }
            return None;
        },
    };
    let c0 = match find_back_char(t, from, c1, ',') {
        Some(i) => i,
        None => {
            return None;
        },
    };
    let size = read_u64(t, c0 + 1, c1);
    let last_modified = read_u64(t, c1 + 1, c2);
    let script_count = read_u64(t, c2 + 1, c3);
    let is_allowed = read_flag(t, c3 + 1, to);
    match (size, last_modified, script_count, is_allowed) {
        (Some(size), Some(last_modified), Some(script_count), Some(is_allowed)) => Some(
            (string_of(t, from, c0), NodeRecord::with(size, last_modified, script_count, is_allowed)),
        ),
        _ => None,
    }
}

/// Searching backwards where nothing is left finds nothing.
pub proof fn lemma_find_back_none(t: Seq<char>, from: int, c: char)
    ensures
        find_back(t, from, from - 1, c) == from - 1,
{
}

/// Where a prefix of `s` writes no number, `s` writes none.
pub proof fn lemma_number_prefix(s: Seq<char>, n: int)
    requires
        0 < n <= s.len(),
        number_of(s.take(n)) is None,
    ensures
        number_of(s) is None,
    decreases s.len() - n,
{
    if n < s.len() {
        assert(s.take(n + 1).drop_last() =~= s.take(n));
        lemma_number_prefix(s, n + 1);
    } else {
        assert(s.take(n) =~= s);
    }
}

/// A number is at least the number that a prefix of its digits writes.
pub proof fn lemma_number_grows(s: Seq<char>, n: int)
    requires
        0 < n <= s.len(),
    ensures
        match (number_of(s), number_of(s.take(n))) {
            (Some(whole), Some(part)) => whole >= part,
            _ => true,
        },
    decreases s.len() - n,
{
    if n < s.len() {
        let longer = s.take(n + 1);
        assert(longer.drop_last() =~= s.take(n));
        lemma_number_grows(s, n + 1);
        if number_of(longer) is None {
            lemma_number_prefix(s, n + 1);
        }
    } else {
        assert(s.take(n) =~= s);
    }
}

/// Reads a store from its text. Rows are written in turn, so where a key
/// comes twice the later row stands.
pub fn load(text: &str) -> (r: Result<AggregateStore, LoadError>)
    ensures
        match parse_text(text@) {
            None => r == Err::<AggregateStore, LoadError>(LoadError::Malformed),
            Some(rows) => r matches Ok(store) && store.wf() && store@ == rows_map(rows)
                && store.order() == rows_order(rows),
        },
{
    let t = chars_of(text);
    let mut store = AggregateStore::new();
    let mut pos: usize = 0;
    let ghost mut done: Seq<(Seq<char>, NodeRecord)> = Seq::empty();
    while pos < t.len()
        invariant
            t@ == text@,
            store.wf(),
            store@ == rows_map(done),
            store.order() == rows_order(done),
            parse_text(t@) == (match parse_from(t@, pos as int) {
                None => None::<Seq<(Seq<char>, NodeRecord)>>,
                Some(rest) => Some(done + rest),
            }),
        decreases t.len() - pos,
    {
        let end = find_char(&t, pos, t.len(), '\n');
        if end > pos {
            match read_row(&t, pos, end) {
                None => {
                    return Err(LoadError::Malformed);
                },
                Some((key, record)) => {
                    proof {
                        let row = (key@, record);
                        let before = done;
                        done = done.push(row);
                        assert(done.drop_last() =~= before);
                        assert(before + seq![row] =~= done);
                        if end < t.len() {
                            match parse_from(t@, end + 1) {
                                None => {},
                                Some(rest) => {
                                    assert(before + (seq![row] + rest) =~= done + rest);
                                },
                            }
                        } else {
                            assert(done + Seq::<(Seq<char>, NodeRecord)>::empty() =~= done);
                        }
                    }
                    store.insert(key, record);
                },
            }
        }
        pos = if end < t.len() {
            end + 1
        } else {
            end
        };
    }
    proof {
        assert(done + Seq::<(Seq<char>, NodeRecord)>::empty() =~= done);
    }
    Ok(store)
}

} // verus!
