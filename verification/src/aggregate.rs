//! Grouping of case records into (label, count) tables, with the
//! dimension-specific ordering, filtering and truncation policy of the
//! dashboard: dates ascending and capped to the most recent 50, age
//! brackets in their display order, locations by descending count with
//! rarely seen locations dropped.

use vstd::prelude::*;
use vstd::pervasive::VecAdditionalExecFns;
use vstd::string::StrSliceExecFns;
use vstd::string::StringExecFns;
use crate::order::lex_le;
use crate::order::lex_lt;
use crate::order::lemma_lex_le_prefix;
use crate::order::lemma_lex_le_total;
use crate::order::lemma_lex_le_trans;
use crate::order::str_eq;
use crate::order::str_lex_le;

verus! {

/// One confirmed case: its report date, age bracket and location, all
/// as the dataset's own label strings.
pub struct CaseRecord {
    pub date: String,
    pub age: String,
    pub location: String,
}

/// One row of an aggregate table: a label and how many records carry it.
pub struct Entry {
    pub label: String,
    pub count: u32,
}

/// The three dimensions a record can be grouped by.
#[derive(Clone, Copy)]
pub enum Dim {
    Date,
    Age,
    Location,
}

/// The label a record contributes to the given dimension.
pub open spec fn label_of(r: CaseRecord, d: Dim) -> Seq<char> {
    match d {
        Dim::Date => r.date@,
        Dim::Age => r.age@,
        Dim::Location => r.location@,
    }
}

/// The labels of all records, in record order, for one dimension.
pub open spec fn labels_of(rs: Seq<CaseRecord>, d: Dim) -> Seq<Seq<char>> {
    rs.map_values(|r: CaseRecord| label_of(r, d))
}

/// How many times `l` occurs in `labels`.
pub open spec fn occ(labels: Seq<Seq<char>>, l: Seq<char>) -> nat
    decreases labels.len(),
{
    if labels.len() == 0 {
        0
    } else {
        occ(labels.drop_last(), l) + (if labels.last() == l {
            1nat
        } else {
            0nat
        })
    }
}

/// How many labels are non-empty.
pub open spec fn count_nonempty(labels: Seq<Seq<char>>) -> nat
    decreases labels.len(),
{
    if labels.len() == 0 {
        0
    } else {
        count_nonempty(labels.drop_last()) + (if labels.last().len() > 0 {
            1nat
        } else {
            0nat
        })
    }
}

/// The sum of all counts in a table.
pub open spec fn sum_counts(s: Seq<Entry>) -> int
    decreases s.len(),
{
    if s.len() == 0 {
        0
    } else {
        sum_counts(s.drop_last()) + s.last().count
    }
}

/// No two rows share a label.
pub open spec fn labels_distinct(s: Seq<Entry>) -> bool {
    forall|i: int, j: int| 0 <= i < j < s.len() ==> s[i].label@ != s[j].label@
}

/// Some row carries the label `l`.
pub open spec fn has_label(s: Seq<Entry>, l: Seq<char>) -> bool {
    exists|i: int| 0 <= i < s.len() && s[i].label@ == l
}

/// Every row's count is the number of occurrences of its label.
pub open spec fn counts_match(s: Seq<Entry>, labels: Seq<Seq<char>>) -> bool {
    forall|i: int| 0 <= i < s.len() ==> s[i].count == occ(labels, #[trigger] s[i].label@)
}

/// Some row has the same label and count as `e`.
pub open spec fn entry_in(s: Seq<Entry>, e: Entry) -> bool {
    exists|i: int| 0 <= i < s.len() && s[i].label@ == e.label@ && s[i].count == e.count
}

/// A faithful grouping of `labels`: distinct rows, counts equal to
/// occurrences, every (non-empty, when labels are being skipped) label
/// present, and the counts summing to the number of grouped labels.
pub open spec fn table_ok(table: Seq<Entry>, labels: Seq<Seq<char>>, skip_empty: bool) -> bool {
    &&& labels_distinct(table)
    &&& counts_match(table, labels)
    &&& forall|i: int| 0 <= i < table.len() ==> #[trigger] table[i].count >= 1
    &&& (skip_empty ==> forall|i: int|
        0 <= i < table.len() ==> #[trigger] table[i].label@.len() > 0)
    &&& forall|l: Seq<char>|
        occ(labels, l) > 0 && (skip_empty ==> l.len() > 0) ==> #[trigger] has_label(table, l)
    &&& sum_counts(table) == if skip_empty {
        count_nonempty(labels) as int
    } else {
        labels.len() as int
    }
}

proof fn lemma_occ_le_len(labels: Seq<Seq<char>>, l: Seq<char>)
    ensures
        occ(labels, l) <= labels.len(),
    decreases labels.len(),
{
    if labels.len() > 0 {
        lemma_occ_le_len(labels.drop_last(), l);
    }
}

/// Extending a prefix of the label sequence by one label raises by one
/// the occurrence count of that label alone, and the non-empty tally
/// exactly when the new label is non-empty.
proof fn lemma_take_step(labels: Seq<Seq<char>>, i: int)
    requires
        0 <= i < labels.len(),
    ensures
        forall|l: Seq<char>| #[trigger] occ(labels.take(i + 1), l) == occ(labels.take(i), l) + (
        if labels[i] == l {
            1nat
        } else {
            0nat
        }),
        count_nonempty(labels.take(i + 1)) == count_nonempty(labels.take(i)) + (if labels[i].len()
            > 0 {
            1nat
        } else {
            0nat
        }),
{
    assert(labels.take(i + 1).drop_last() =~= labels.take(i));
    assert(labels.take(i + 1).last() == labels[i]);
}

proof fn lemma_sum_update(s: Seq<Entry>, k: int, e: Entry)
    requires
        0 <= k < s.len(),
    ensures
        sum_counts(s.update(k, e)) == sum_counts(s) - s[k].count + e.count,
    decreases s.len(),
{
    let t = s.update(k, e);
    if k == s.len() - 1 {
        assert(t.drop_last() =~= s.drop_last());
        assert(t.last() == e);
    } else {
        assert(t.drop_last() =~= s.drop_last().update(k, e));
        lemma_sum_update(s.drop_last(), k, e);
        assert(t.last() == s.last());
    }
}

proof fn lemma_sum_push(s: Seq<Entry>, e: Entry)
    ensures
        sum_counts(s.push(e)) == sum_counts(s) + e.count,
{
    assert(s.push(e).drop_last() =~= s);
    assert(s.push(e).last() == e);
}

/// The record's label string for one dimension.
fn get_label<'a>(r: &'a CaseRecord, d: Dim) -> (l: &'a String)
    ensures
        l@ == label_of(*r, d),
{
    match d {
        Dim::Date => &r.date,
        Dim::Age => &r.age,
        Dim::Location => &r.location,
    }
}

/// The index of the row carrying label `l`, if there is one.
fn find_label(table: &Vec<Entry>, l: &String) -> (res: Option<usize>)
    ensures
        match res {
            Some(k) => k < table@.len() && table@[k as int].label@ == l@,
            None => !has_label(table@, l@),
        },
{
    let mut k: usize = 0;
    while k < table.len()
        invariant
            k <= table@.len(),
            forall|j: int| 0 <= j < k ==> table@[j].label@ != l@,
        decreases table@.len() - k,
    {
        if str_eq(table[k].label.as_str(), l.as_str()) {
            return Some(k);
        }
        k = k + 1;
    }
    None
}

/// Groups the records' labels for one dimension into a count table,
/// optionally leaving records with an empty label out.
pub fn count_dim(records: &Vec<CaseRecord>, d: Dim, skip_empty: bool) -> (table: Vec<Entry>)
    requires
        records@.len() <= u32::MAX,
    ensures
        table_ok(table@, labels_of(records@, d), skip_empty),
{
    let ghost labels = labels_of(records@, d);
    let mut table: Vec<Entry> = Vec::new();
    let n = records.len();
    let mut i: usize = 0;
    proof {
        assert(labels.take(0) =~= Seq::<Seq<char>>::empty());
    }
    while i < n
        invariant
            i <= n,
            n == records@.len(),
            records@.len() <= u32::MAX,
            labels == labels_of(records@, d),
            table_ok(table@, labels.take(i as int), skip_empty),
        decreases n - i,
    {
        let ghost prefix = labels.take(i as int);
        let ghost prefix1 = labels.take(i as int + 1);
        let lbl: &String = get_label(&records[i], d);
        proof {
            assert(labels[i as int] == lbl@);
            lemma_take_step(labels, i as int);
        }
        let keep = if skip_empty {
            !lbl.as_str().is_empty()
        } else {
            true
        };
        if keep {
            let ghost old_table = table@;
            match find_label(&table, lbl) {
                Some(k) => {
                    proof {
                        lemma_occ_le_len(prefix, lbl@);
                    }
                    let c = table[k].count;
                    let fresh_label = table[k].label.clone();
                    table.set(k, Entry { label: fresh_label, count: c + 1 });
                    proof {
                        assert(table@[k as int].label@ == old_table[k as int].label@);
                        lemma_sum_update(old_table, k as int, table@[k as int]);
                        assert forall|l: Seq<char>|
                            occ(prefix1, l) > 0 && (skip_empty ==> l.len() > 0) implies #[trigger] has_label(
                            table@,
                            l,
                        ) by {
                            if l == lbl@ {
                                assert(table@[k as int].label@ == l);
                            } else {
                                assert(occ(prefix, l) > 0);
                                assert(has_label(old_table, l));
                                let w = choose|w: int|
                                    0 <= w < old_table.len() && old_table[w].label@ == l;
                                assert(table@[w].label@ == l);
                            }
                        }
                        assert(counts_match(table@, prefix1));
                    }
                }
                None => {
                    table.push(Entry { label: lbl.clone(), count: 1 });
                    proof {
                        lemma_sum_push(old_table, table@.last());
                        assert(table@.drop_last() =~= old_table);
                        assert forall|l: Seq<char>|
                            occ(prefix1, l) > 0 && (skip_empty ==> l.len() > 0) implies #[trigger] has_label(
                            table@,
                            l,
                        ) by {
                            if l == lbl@ {
                                assert(table@[table@.len() - 1].label@ == l);
                            } else {
                                assert(occ(prefix, l) > 0);
                                assert(has_label(old_table, l));
                                let w = choose|w: int|
                                    0 <= w < old_table.len() && old_table[w].label@ == l;
                                assert(table@.drop_last()[w] == old_table[w]);
                                assert(table@[w] == table@.drop_last()[w]);
                                assert(table@[w].label@ == l);
                            }
                        }
                        assert(counts_match(table@, prefix1));
                    }
                }
            }
        } else {
            proof {
                assert(lbl@.len() == 0);
                assert forall|l: Seq<char>|
                    occ(prefix1, l) > 0 && l.len() > 0 implies #[trigger] has_label(table@, l) by {
                    assert(occ(prefix, l) > 0);
                }
                assert(counts_match(table@, prefix1));
            }
        }
        i = i + 1;
    }
    proof {
        assert(labels.take(n as int) =~= labels);
    }
    table
}

/// A row worth keeping: a non-empty label seen at least `min_count` times.
pub open spec fn qualifies(e: Entry, min_count: u32) -> bool {
    e.count >= min_count && e.label@.len() > 0
}

/// Keeps the rows with a non-empty label and a count of at least
/// `min_count`, in their original order.
fn filter_min(table: &Vec<Entry>, min_count: u32) -> (out: Vec<Entry>)
    requires
        labels_distinct(table@),
    ensures
        labels_distinct(out@),
        forall|i: int|
            0 <= i < out@.len() ==> qualifies(#[trigger] out@[i], min_count) && entry_in(
                table@,
                out@[i],
            ),
        forall|j: int|
            0 <= j < table@.len() && qualifies(#[trigger] table@[j], min_count) ==> entry_in(
                out@,
                table@[j],
            ),
        (forall|j: int| 0 <= j < table@.len() ==> qualifies(#[trigger] table@[j], min_count))
            ==> out@ == table@,
{
    let mut out: Vec<Entry> = Vec::new();
    let mut j: usize = 0;
    while j < table.len()
        invariant
            j <= table@.len(),
            labels_distinct(table@),
            labels_distinct(out@),
            forall|p: int|
                0 <= p < out@.len() ==> qualifies(#[trigger] out@[p], min_count) && (exists|q: int|
                    0 <= q < j && table@[q].label@ == out@[p].label@ && table@[q].count
                        == out@[p].count),
            forall|q: int|
                0 <= q < j && qualifies(#[trigger] table@[q], min_count) ==> entry_in(
                    out@,
                    table@[q],
                ),
            (forall|q: int| 0 <= q < j ==> qualifies(#[trigger] table@[q], min_count)) ==> out@
                =~= table@.take(j as int),
        decreases table@.len() - j,
    {
        let keep = table[j].count >= min_count && !table[j].label.as_str().is_empty();
        if keep {
            let ghost old_out = out@;
            out.push(Entry { label: table[j].label.clone(), count: table[j].count });
            proof {
                assert(out@.last() == table@[j as int]);
                assert(out@[out@.len() - 1].label@ == table@[j as int].label@);
                assert(entry_in(out@, table@[j as int]));
                assert forall|q: int|
                    0 <= q < j + 1 && qualifies(#[trigger] table@[q], min_count) implies entry_in(
                    out@,
                    table@[q],
                ) by {
                    if q < j {
                        let w = choose|w: int|
                            0 <= w < old_out.len() && old_out[w].label@ == table@[q].label@
                                && old_out[w].count == table@[q].count;
                        assert(out@[w].label@ == table@[q].label@);
                    }
                }
                assert forall|p: int, q: int| 0 <= p < q < out@.len() implies out@[p].label@
                    != out@[q].label@ by {
                    if q == out@.len() - 1 {
                        let w = choose|w: int|
                            0 <= w < j && table@[w].label@ == old_out[p].label@ && table@[w].count
                                == old_out[p].count;
                        assert(table@[w].label@ != table@[j as int].label@);
                    }
                }
                if forall|q: int| 0 <= q < j + 1 ==> qualifies(#[trigger] table@[q], min_count) {
                    assert(old_out =~= table@.take(j as int));
                    assert(out@ =~= table@.take(j as int + 1));
                }
            }
        }
        j = j + 1;
    }
    proof {
        assert(table@.take(table@.len() as int) =~= table@);
    }
    out
}

/// The label string of the age bracket for children under ten.
pub open spec fn under_ten_label() -> Seq<char> {
    seq!['1', '0', '歳', '未', '満']
}

/// The label string of the bracket for people in their tens.
pub open spec fn teens_label() -> Seq<char> {
    seq!['1', '0', '代']
}

/// The key an age bracket sorts by: the under-ten bracket is remapped so
/// that it sorts immediately before the tens bracket, and three-character
/// labels get one trailing filler character so that brackets of different
/// numeral widths compare at a fixed width.
pub open spec fn age_key(l: Seq<char>) -> Seq<char> {
    if l == under_ten_label() {
        teens_label()
    } else if l.len() == 3 {
        l.push('_')
    } else {
        l
    }
}

/// Computes the sort key of an age-bracket label.
fn age_key_exec(l: &String) -> (r: String)
    ensures
        r@ == age_key(l@),
{
    proof {
        reveal_strlit("10歳未満");
        reveal_strlit("10代");
        assert("10歳未満"@ =~= under_ten_label());
        assert("10代"@ =~= teens_label());
    }
    if str_eq(l.as_str(), "10歳未満") {
        String::from_str("10代")
    } else if l.as_str().unicode_len() == 3 {
        let mut r = l.clone();
        proof {
            reveal_strlit("_");
        }
        r.append("_");
        proof {
            assert(r@ =~= l@.push('_'));
        }
        r
    } else {
        l.clone()
    }
}

/// The order each aggregate table is sorted in.
#[derive(Clone, Copy)]
pub enum SortKey {
    /// Lexicographically ascending by label (dates).
    ByLabel,
    /// Ascending by the age-bracket sort key.
    ByAgeKey,
    /// Descending by count (locations).
    ByCountDesc,
}

/// `a` may stand at or before `b` under the given order.
pub open spec fn entry_le(k: SortKey, a: Entry, b: Entry) -> bool {
    match k {
        SortKey::ByLabel => lex_le(a.label@, b.label@),
        SortKey::ByAgeKey => lex_le(age_key(a.label@), age_key(b.label@)),
        SortKey::ByCountDesc => a.count >= b.count,
    }
}

/// The table is sorted under the given order.
pub open spec fn sorted_by(k: SortKey, s: Seq<Entry>) -> bool {
    forall|i: int, j: int| 0 <= i < j < s.len() ==> entry_le(k, s[i], s[j])
}

proof fn lemma_entry_le_total(k: SortKey, a: Entry, b: Entry)
    ensures
        entry_le(k, a, b) || entry_le(k, b, a),
{
    match k {
        SortKey::ByLabel => lemma_lex_le_total(a.label@, b.label@),
        SortKey::ByAgeKey => lemma_lex_le_total(age_key(a.label@), age_key(b.label@)),
        SortKey::ByCountDesc => {},
    }
}

proof fn lemma_entry_le_trans(k: SortKey, a: Entry, b: Entry, c: Entry)
    requires
        entry_le(k, a, b),
        entry_le(k, b, c),
    ensures
        entry_le(k, a, c),
{
    match k {
        SortKey::ByLabel => lemma_lex_le_trans(a.label@, b.label@, c.label@),
        SortKey::ByAgeKey => lemma_lex_le_trans(
            age_key(a.label@),
            age_key(b.label@),
            age_key(c.label@),
        ),
        SortKey::ByCountDesc => {},
    }
}

/// Decides `entry_le`.
fn entry_le_exec(k: SortKey, a: &Entry, b: &Entry) -> (r: bool)
    ensures
        r == entry_le(k, *a, *b),
{
    match k {
        SortKey::ByLabel => str_lex_le(a.label.as_str(), b.label.as_str()),
        SortKey::ByAgeKey => {
            let ka = age_key_exec(&a.label);
            let kb = age_key_exec(&b.label);
            str_lex_le(ka.as_str(), kb.as_str())
        },
        SortKey::ByCountDesc => a.count >= b.count,
    }
}

proof fn lemma_sum_insert(s: Seq<Entry>, pos: int, e: Entry)
    requires
        0 <= pos <= s.len(),
    ensures
        sum_counts(s.insert(pos, e)) == sum_counts(s) + e.count,
    decreases s.len(),
{
    s.insert_ensures(pos, e);
    if pos == s.len() {
        assert(s.insert(pos, e) =~= s.push(e));
        lemma_sum_push(s, e);
    } else {
        assert(s.insert(pos, e).drop_last() =~= s.drop_last().insert(pos, e));
        assert(s.insert(pos, e).last() == s.last());
        lemma_sum_insert(s.drop_last(), pos, e);
    }
}

/// Sorts a table of distinct-labelled rows under the given order by
/// insertion, keeping rows, labels and the total count intact.
#[verifier::rlimit(100)]
fn sort_entries(k: SortKey, input: &Vec<Entry>) -> (out: Vec<Entry>)
    requires
        labels_distinct(input@),
    ensures
        out@.len() == input@.len(),
        sorted_by(k, out@),
        labels_distinct(out@),
        forall|p: int| 0 <= p < out@.len() ==> entry_in(input@, #[trigger] out@[p]),
        forall|q: int| 0 <= q < input@.len() ==> entry_in(out@, #[trigger] input@[q]),
        sum_counts(out@) == sum_counts(input@),
{
    let mut out: Vec<Entry> = Vec::new();
    let mut i: usize = 0;
    proof {
        assert(input@.take(0) =~= Seq::<Entry>::empty());
    }
    while i < input.len()
        invariant
            i <= input@.len(),
            labels_distinct(input@),
            out@.len() == i,
            sorted_by(k, out@),
            labels_distinct(out@),
            forall|p: int|
                0 <= p < out@.len() ==> exists|q: int|
                    0 <= q < i && input@[q].label@ == #[trigger] out@[p].label@ && input@[q].count
                        == out@[p].count,
            forall|q: int| 0 <= q < i ==> entry_in(out@, #[trigger] input@[q]),
            sum_counts(out@) == sum_counts(input@.take(i as int)),
        decreases input@.len() - i,
    {
        let e = Entry { label: input[i].label.clone(), count: input[i].count };
        proof {
            assert(e == input@[i as int]);
        }
        let mut pos: usize = 0;
        while pos < out.len() && entry_le_exec(k, &out[pos], &e)
            invariant
                pos <= out@.len(),
                forall|m: int| 0 <= m < pos ==> entry_le(k, #[trigger] out@[m], e),
            decreases out@.len() - pos,
        {
            pos = pos + 1;
        }
        proof {
            assert forall|m: int| pos <= m < out@.len() implies entry_le(k, e, #[trigger] out@[m]) by {
                lemma_entry_le_total(k, out@[pos as int], e);
                if m > pos {
                    lemma_entry_le_trans(k, e, out@[pos as int], out@[m]);
                }
            }
        }
        let ghost old_out = out@;
        out.insert(pos, e);
        proof {
            old_out.insert_ensures(pos as int, e);
            lemma_sum_insert(old_out, pos as int, e);
            lemma_take_step_entries(input@, i as int);
            assert(out@.len() == old_out.len() + 1);
            assert(out@[pos as int] == e);
            assert(forall|m: int| 0 <= m < pos ==> #[trigger] out@[m] == old_out[m]);
            assert(forall|m: int| pos <= m < old_out.len() ==> #[trigger] out@[m + 1] == old_out[m]);
            assert forall|p: int, q: int| 0 <= p < q < out@.len() implies entry_le(
                k,
                out@[p],
                out@[q],
            ) by {
                if q == pos {
                    assert(out@[p] == old_out[p]);
                } else if p == pos {
                    assert(out@[q] == old_out[q - 1]);
                } else if p < pos && q > pos {
                    assert(out@[p] == old_out[p]);
                    assert(out@[q] == old_out[q - 1]);
                } else if q < pos {
                    assert(out@[p] == old_out[p]);
                    assert(out@[q] == old_out[q]);
                } else {
                    assert(out@[p] == old_out[p - 1]);
                    assert(out@[q] == old_out[q - 1]);
                }
            }
            assert forall|p: int, q: int| 0 <= p < q < out@.len() implies out@[p].label@
                != out@[q].label@ by {
                if p == pos {
                    assert(out@[q] == old_out[q - 1]);
                    let w = choose|w: int|
                        0 <= w < i && input@[w].label@ == old_out[q - 1].label@ && input@[w].count
                            == old_out[q - 1].count;
                    assert(input@[w].label@ != input@[i as int].label@);
                } else if q == pos {
                    assert(out@[p] == old_out[p]);
                    let w = choose|w: int|
                        0 <= w < i && input@[w].label@ == old_out[p].label@ && input@[w].count
                            == old_out[p].count;
                    assert(input@[w].label@ != input@[i as int].label@);
                } else {
                    let p0: int = if p < pos { p } else { p - 1 };
                    let q0: int = if q < pos { q } else { q - 1 };
                    assert(out@[p] == old_out[p0]);
                    assert(out@[q] == old_out[q0]);
                }
            }
            assert forall|q: int| 0 <= q < i + 1 implies entry_in(out@, #[trigger] input@[q]) by {
                if q == i {
                    assert(out@[pos as int].label@ == input@[q].label@);
                } else {
                    let w = choose|w: int|
                        0 <= w < old_out.len() && old_out[w].label@ == input@[q].label@
                            && old_out[w].count == input@[q].count;
                    if w < pos {
                        assert(out@[w].label@ == input@[q].label@);
                    } else {
                        assert(out@[w + 1].label@ == input@[q].label@);
                    }
                }
            }
        }
        i = i + 1;
    }
    proof {
        assert(input@.take(input@.len() as int) =~= input@);
    }
    out
}

proof fn lemma_take_step_entries(s: Seq<Entry>, i: int)
    requires
        0 <= i < s.len(),
    ensures
        sum_counts(s.take(i + 1)) == sum_counts(s.take(i)) + s[i].count,
{
    assert(s.take(i + 1).drop_last() =~= s.take(i));
    assert(s.take(i + 1).last() == s[i]);
}

/// Keeps the last `n` rows of a table (all of them when it is shorter).
fn keep_last(table: &Vec<Entry>, n: usize) -> (out: Vec<Entry>)
    ensures
        out@ == table@.skip(
            if table@.len() <= n {
                0int
            } else {
                table@.len() - n
            },
        ),
{
    let start = if table.len() > n {
        table.len() - n
    } else {
        0
    };
    let mut out: Vec<Entry> = Vec::new();
    let mut i = start;
    proof {
        assert(out@ =~= table@.subrange(start as int, start as int));
    }
    while i < table.len()
        invariant
            start <= i <= table@.len(),
            out@ == table@.subrange(start as int, i as int),
        decreases table@.len() - i,
    {
        let ghost old_out = out@;
        out.push(Entry { label: table[i].label.clone(), count: table[i].count });
        proof {
            assert(out@.last() == table@[i as int]);
            assert(out@ =~= table@.subrange(start as int, i as int + 1));
        }
        i = i + 1;
    }
    proof {
        assert(table@.subrange(start as int, table@.len() as int) =~= table@.skip(start as int));
    }
    out
}

proof fn lemma_entries_carry_over(table: Seq<Entry>, out: Seq<Entry>, labels: Seq<Seq<char>>)
    requires
        counts_match(table, labels),
        forall|w: int| 0 <= w < table.len() ==> #[trigger] table[w].count >= 1,
        forall|p: int| 0 <= p < out.len() ==> entry_in(table, #[trigger] out[p]),
    ensures
        counts_match(out, labels),
        forall|p: int| 0 <= p < out.len() ==> #[trigger] out[p].count >= 1,
{
    assert forall|p: int| 0 <= p < out.len() implies out[p].count == occ(
        labels,
        #[trigger] out[p].label@,
    ) && out[p].count >= 1 by {
        assert(entry_in(table, out[p]));
        let w = choose|w: int|
            0 <= w < table.len() && table[w].label@ == out[p].label@ && table[w].count
                == out[p].count;
        assert(table[w].count == occ(labels, table[w].label@));
    }
}

proof fn lemma_label_carries_over(table: Seq<Entry>, out: Seq<Entry>, l: Seq<char>)
    requires
        has_label(table, l),
        forall|q: int| 0 <= q < table.len() ==> entry_in(out, #[trigger] table[q]),
    ensures
        has_label(out, l),
{
    let w = choose|w: int| 0 <= w < table.len() && table[w].label@ == l;
    assert(entry_in(out, table[w]));
    let v = choose|v: int|
        0 <= v < out.len() && out[v].label@ == table[w].label@ && out[v].count == table[w].count;
}

/// A faithful age aggregate of `rs`: one row per distinct non-empty age
/// bracket, counted exactly, in bracket display order, the counts
/// summing to the number of records with a non-empty age bracket.
pub open spec fn age_aggregate_ok(rs: Seq<CaseRecord>, out: Seq<Entry>) -> bool {
    let labels = labels_of(rs, Dim::Age);
    &&& labels_distinct(out)
    &&& counts_match(out, labels)
    &&& forall|i: int|
        0 <= i < out.len() ==> #[trigger] out[i].count >= 1 && out[i].label@.len() > 0
    &&& forall|l: Seq<char>| occ(labels, l) > 0 && l.len() > 0 ==> #[trigger] has_label(out, l)
    &&& sorted_by(SortKey::ByAgeKey, out)
    &&& sum_counts(out) == count_nonempty(labels) as int
}

/// Groups the records by age bracket, dropping empty labels, sorted in
/// bracket display order.
pub fn aggregate_by_age(records: &Vec<CaseRecord>) -> (out: Vec<Entry>)
    requires
        records@.len() <= u32::MAX,
    ensures
        age_aggregate_ok(records@, out@),
{
    let ghost labels = labels_of(records@, Dim::Age);
    let table = count_dim(records, Dim::Age, true);
    let out = sort_entries(SortKey::ByAgeKey, &table);
    proof {
        lemma_entries_carry_over(table@, out@, labels);
        assert forall|i: int| 0 <= i < out@.len() implies #[trigger] out@[i].count >= 1
            && out@[i].label@.len() > 0 by {
            let w = choose|w: int|
                0 <= w < table@.len() && table@[w].label@ == out@[i].label@ && table@[w].count
                    == out@[i].count;
        }
        assert forall|l: Seq<char>| occ(labels, l) > 0 && l.len() > 0 implies #[trigger] has_label(
            out@,
            l,
        ) by {
            assert(has_label(table@, l));
            lemma_label_carries_over(table@, out@, l);
        }
    }
    out
}

/// A faithful date aggregate of `rs`: at most the 50 most recent dates,
/// strictly ascending, counted exactly; when no date was dropped the
/// counts sum to the number of records.
pub open spec fn date_aggregate_ok(rs: Seq<CaseRecord>, out: Seq<Entry>) -> bool {
    let labels = labels_of(rs, Dim::Date);
    &&& labels_distinct(out)
    &&& counts_match(out, labels)
    &&& forall|i: int| 0 <= i < out.len() ==> #[trigger] out[i].count >= 1
    &&& out.len() <= 50
    &&& forall|i: int, j: int|
        0 <= i < j < out.len() ==> lex_lt(out[i].label@, out[j].label@)
    &&& forall|l: Seq<char>|
        #[trigger] occ(labels, l) > 0 && !has_label(out, l) ==> out.len() == 50 && (forall|i: int|
            0 <= i < out.len() ==> lex_lt(l, #[trigger] out[i].label@))
    &&& (forall|l: Seq<char>| #[trigger] occ(labels, l) > 0 ==> has_label(out, l))
        ==> sum_counts(out) == labels.len() as int
}

/// Groups the records by date, ascending, keeping only the most recent
/// 50 dates.
pub fn aggregate_by_date(records: &Vec<CaseRecord>) -> (out: Vec<Entry>)
    requires
        records@.len() <= u32::MAX,
    ensures
        date_aggregate_ok(records@, out@),
{
    let ghost labels = labels_of(records@, Dim::Date);
    let table = count_dim(records, Dim::Date, false);
    let sorted_full = sort_entries(SortKey::ByLabel, &table);
    let out = keep_last(&sorted_full, 50);
    proof {
        let full = sorted_full@;
        let start: int = if full.len() <= 50 {
            0
        } else {
            full.len() - 50
        };
        assert(out@ == full.skip(start));
        assert(out@.len() == full.len() - start);
        assert(forall|i: int| 0 <= i < out@.len() ==> #[trigger] out@[i] == full[start + i]);
        lemma_entries_carry_over(table@, full, labels);
        lemma_entries_carry_over(full, out@, labels);
        assert forall|i: int, j: int| 0 <= i < j < out@.len() implies lex_lt(
            out@[i].label@,
            out@[j].label@,
        ) by {
            assert(entry_le(SortKey::ByLabel, full[start + i], full[start + j]));
            assert(full[start + i].label@ != full[start + j].label@);
        }
        assert forall|l: Seq<char>|
            #[trigger] occ(labels, l) > 0 && !has_label(out@, l) implies out@.len() == 50 && (
        forall|i: int| 0 <= i < out@.len() ==> lex_lt(l, #[trigger] out@[i].label@)) by {
            assert(has_label(table@, l));
            lemma_label_carries_over(table@, full, l);
            assert(has_label(full, l));
            let w = choose|w: int| 0 <= w < full.len() && full[w].label@ == l;
            if w >= start {
                assert(out@[w - start].label@ == l);
                assert(false);
            }
            assert(start > 0);
            assert forall|i: int| 0 <= i < out@.len() implies lex_lt(
                l,
                #[trigger] out@[i].label@,
            ) by {
                assert(entry_le(SortKey::ByLabel, full[w], full[start + i]));
                assert(full[w].label@ != full[start + i].label@);
            }
        }
        if forall|l: Seq<char>| #[trigger] occ(labels, l) > 0 ==> has_label(out@, l) {
            if start > 0 {
                assert(full[0].count == occ(labels, full[0].label@));
                assert(occ(labels, full[0].label@) > 0);
                assert(has_label(out@, full[0].label@));
                let v = choose|v: int| 0 <= v < out@.len() && out@[v].label@ == full[0].label@;
                assert(full[start + v].label@ == full[0].label@);
                assert(false);
            }
            assert(out@ =~= full);
            assert(sum_counts(out@) == labels.len() as int);
        }
    }
    out
}

/// A faithful location aggregate of `rs`: one row per distinct non-empty
/// location seen at least 100 times, counted exactly, by descending
/// count; when no location fell below the threshold the counts sum to
/// the number of records with a non-empty location.
pub open spec fn location_aggregate_ok(rs: Seq<CaseRecord>, out: Seq<Entry>) -> bool {
    let labels = labels_of(rs, Dim::Location);
    &&& labels_distinct(out)
    &&& counts_match(out, labels)
    &&& forall|i: int|
        0 <= i < out.len() ==> (#[trigger] out[i].count) >= 100 && out[i].label@.len() > 0
    &&& forall|i: int, j: int| 0 <= i < j < out.len() ==> out[i].count >= out[j].count
    &&& forall|l: Seq<char>| occ(labels, l) >= 100 && l.len() > 0 ==> #[trigger] has_label(out, l)
    &&& (forall|l: Seq<char>|
        #[trigger] occ(labels, l) > 0 && l.len() > 0 ==> occ(labels, l) >= 100) ==> sum_counts(out)
        == count_nonempty(labels) as int
}

/// Groups the records by location, dropping empty labels and locations
/// seen fewer than 100 times, sorted by descending count.
#[verifier::rlimit(100)]
pub fn aggregate_by_location(records: &Vec<CaseRecord>) -> (out: Vec<Entry>)
    requires
        records@.len() <= u32::MAX,
    ensures
        location_aggregate_ok(records@, out@),
{
    let ghost labels = labels_of(records@, Dim::Location);
    let table = count_dim(records, Dim::Location, true);
    let kept = filter_min(&table, 100);
    let out = sort_entries(SortKey::ByCountDesc, &kept);
    proof {
        assert forall|p: int| 0 <= p < kept@.len() implies entry_in(table@, #[trigger] kept@[p])
            && kept@[p].count >= 100 && kept@[p].label@.len() > 0 by {
            assert(qualifies(kept@[p], 100));
        }
        lemma_entries_carry_over(table@, kept@, labels);
        lemma_entries_carry_over(kept@, out@, labels);
        assert forall|i: int| 0 <= i < out@.len() implies (#[trigger] out@[i].count) >= 100
            && out@[i].label@.len() > 0 by {
            let w = choose|w: int|
                0 <= w < kept@.len() && kept@[w].label@ == out@[i].label@ && kept@[w].count
                    == out@[i].count;
        }
        assert forall|i: int, j: int| 0 <= i < j < out@.len() implies out@[i].count
            >= out@[j].count by {
            assert(entry_le(SortKey::ByCountDesc, out@[i], out@[j]));
        }
        assert forall|l: Seq<char>| occ(labels, l) >= 100 && l.len() > 0 implies #[trigger] has_label(
            out@,
            l,
        ) by {
            assert(has_label(table@, l));
            let w = choose|w: int| 0 <= w < table@.len() && table@[w].label@ == l;
            assert(table@[w].count == occ(labels, l));
            assert(qualifies(table@[w], 100));
            assert(entry_in(kept@, table@[w]));
            lemma_label_carries_over(kept@, out@, l);
        }
        if forall|l: Seq<char>| #[trigger] occ(labels, l) > 0 && l.len() > 0 ==> occ(labels, l)
            >= 100 {
            assert forall|j: int| 0 <= j < table@.len() implies qualifies(
                #[trigger] table@[j],
                100,
            ) by {
                assert(table@[j].count == occ(labels, table@[j].label@));
                assert(occ(labels, table@[j].label@) > 0);
            }
            assert(kept@ == table@);
            assert(sum_counts(out@) == count_nonempty(labels) as int);
        }
    }
    out
}

/// Builds the three aggregate tables of the dashboard: by age bracket,
/// by date and by location, each under its own ordering policy.
pub fn build_tables(records: &Vec<CaseRecord>) -> (tables: (Vec<Entry>, Vec<Entry>, Vec<Entry>))
    requires
        records@.len() <= u32::MAX,
    ensures
        age_aggregate_ok(records@, tables.0@),
        date_aggregate_ok(records@, tables.1@),
        location_aggregate_ok(records@, tables.2@),
{
    let ages = aggregate_by_age(records);
    let dates = aggregate_by_date(records);
    let locs = aggregate_by_location(records);
    (ages, dates, locs)
}

/// With no records at all, every aggregate table is empty.
pub proof fn lemma_empty_input_yields_empty_tables(
    rs: Seq<CaseRecord>,
    ages: Seq<Entry>,
    dates: Seq<Entry>,
    locs: Seq<Entry>,
)
    requires
        rs.len() == 0,
        age_aggregate_ok(rs, ages),
        date_aggregate_ok(rs, dates),
        location_aggregate_ok(rs, locs),
    ensures
        ages.len() == 0,
        dates.len() == 0,
        locs.len() == 0,
{
    if ages.len() > 0 {
        assert(ages[0].count == occ(labels_of(rs, Dim::Age), ages[0].label@));
    }
    if dates.len() > 0 {
        assert(dates[0].count == occ(labels_of(rs, Dim::Date), dates[0].label@));
    }
    if locs.len() > 0 {
        assert(locs[0].count == occ(labels_of(rs, Dim::Location), locs[0].label@));
    }
}

/// In the age aggregate the under-ten bracket stands immediately before
/// the tens bracket, whatever order the records came in — provided no
/// other bracket's sort key falls between those of the two (true of the
/// dataset's decade-named brackets, which all start with a higher digit).
pub proof fn lemma_under_ten_immediately_before_teens(
    rs: Seq<CaseRecord>,
    out: Seq<Entry>,
    i: int,
    j: int,
)
    requires
        age_aggregate_ok(rs, out),
        0 <= i < out.len(),
        0 <= j < out.len(),
        out[i].label@ == under_ten_label(),
        out[j].label@ == teens_label(),
        forall|m: int|
            0 <= m < out.len() && out[m].label@ != under_ten_label() && out[m].label@
                != teens_label() ==> !(lex_le(teens_label(), age_key(#[trigger] out[m].label@))
                && lex_le(age_key(out[m].label@), age_key(teens_label()))),
    ensures
        j == i + 1,
{
    assert(age_key(out[i].label@) == teens_label());
    assert(age_key(out[j].label@) == teens_label().push('_'));
    assert(teens_label() =~= teens_label().push('_').take(3));
    lemma_lex_le_prefix(teens_label(), teens_label().push('_'));
    assert(i != j);
    if j < i {
        assert(entry_le(SortKey::ByAgeKey, out[j], out[i]));
        assert(lex_le(teens_label().push('_'), teens_label()));
        assert(false);
    }
    if j > i + 1 {
        let m = i + 1;
        assert(entry_le(SortKey::ByAgeKey, out[i], out[m]));
        assert(entry_le(SortKey::ByAgeKey, out[m], out[j]));
        assert(out[m].label@ != out[i].label@ && out[m].label@ != out[j].label@);
        assert(false);
    }
}

} // verus!
