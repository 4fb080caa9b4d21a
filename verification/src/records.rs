//! The trigger database: one record per trigger, its CSV text, and the
//! merge that keeps hand-written rows.
use vstd::prelude::*;
use crate::cli::{boundary_at, byte_prefix, char_count_for_bytes, is_char_boundary};
use crate::config::{opt_view, strings_view, trigger_list, Config, MatchFile};
use crate::text::{
    byte_len, chars_eq, chars_of, concat_chars, contains, contains_chars, copy_range, has_prefix, join, lowercase,
    replace_all, replace_chars, split_by, split_chars, starts_with, str_byte_len, string_of, to_lowercase, trim,
    trim_chars, trim_end_by, trim_end_chars, CharClass,
};

verus! {

/// One row of the trigger database.
#[derive(Debug)]
pub struct TriggerRecord {
    pub trigger: String,
    pub description: String,
    pub category: String,
    pub trigger_type: String,
    pub tags: String,
    pub source_file: String,
}

impl Clone for TriggerRecord {
    /// A copy with the same text in every field.
    fn clone(&self) -> (c: Self)
        ensures
            c == *self,
    {
        TriggerRecord {
            trigger: self.trigger.clone(),
            description: self.description.clone(),
            category: self.category.clone(),
            trigger_type: self.trigger_type.clone(),
            tags: self.tags.clone(),
            source_file: self.source_file.clone(),
        }
    }
}

/// A field with each double quote doubled, as CSV quoting asks.
pub open spec fn csv_escape(s: Seq<char>) -> Seq<char> {
    replace_all(s, seq!['"'], seq!['"', '"'])
}

/// The CSV row of a record: trigger, quoted description, category, type
/// and source file.
pub open spec fn csv_row(r: TriggerRecord) -> Seq<char> {
    r.trigger@ + seq![',', '"'] + csv_escape(r.description@) + seq!['"', ','] + r.category@
        + seq![','] + r.trigger_type@ + seq![','] + r.source_file@
}

/// The header line of the database.
pub open spec fn csv_header() -> Seq<char> {
    "trigger,description,category,type,source_file\n"@
}

/// The rows of the records, each ending in a line feed.
pub open spec fn csv_rows(rs: Seq<TriggerRecord>) -> Seq<char>
    decreases rs.len(),
{
    if rs.len() == 0 {
        seq![]
    } else {
        csv_rows(rs.drop_last()) + csv_row(rs.last()) + seq!['\n']
    }
}

/// `a` followed by `b`, in place.
fn append_chars(a: &mut Vec<char>, b: &[char])
    ensures
        final(a)@ == old(a)@ + b@,
{
    let mut i: usize = 0;
    while i < b.len()
        invariant
            i <= b@.len(),
            a@ == old(a)@ + b@.take(i as int),
        decreases b@.len() - i,
    {
        a.push(b[i]);
        i = i + 1;
        assert(a@ =~= old(a)@ + b@.take(i as int));
    }
    assert(b@.take(i as int) =~= b@);
}

fn escape_quotes(s: &str) -> (r: Vec<char>)
    ensures
        r@ == csv_escape(s@),
{
    let quote = vec!['"'];
    let doubled = vec!['"', '"'];
    assert(quote@ =~= seq!['"']);
    assert(doubled@ =~= seq!['"', '"']);
    replace_chars(&chars_of(s), &quote, &doubled)
}

/// Appends the CSV row of `r`.
fn push_row(out: &mut Vec<char>, r: &TriggerRecord)
    ensures
        final(out)@ == old(out)@ + csv_row(*r),
{
    append_chars(out, &chars_of(r.trigger.as_str()));
    out.push(',');
    out.push('"');
    append_chars(out, &escape_quotes(r.description.as_str()));
    out.push('"');
    out.push(',');
    append_chars(out, &chars_of(r.category.as_str()));
    out.push(',');
    append_chars(out, &chars_of(r.trigger_type.as_str()));
    out.push(',');
    append_chars(out, &chars_of(r.source_file.as_str()));
    assert(out@ =~= old(out)@ + csv_row(*r));
}

impl TriggerRecord {
    /// The record as one CSV row, its description quoted.
    pub fn to_csv_string(&self) -> (s: String)
        ensures
            s@ == csv_row(*self),
    {
        let mut out: Vec<char> = Vec::new();
        push_row(&mut out, self);
        assert(out@ =~= csv_row(*self));
        string_of(&out)
    }
}

/// The whole database as CSV text: the header line, then one line per
/// record.
pub fn records_to_csv(records: &[TriggerRecord]) -> (s: String)
    ensures
        s@ == csv_header() + csv_rows(records@),
{
    let mut out = chars_of("trigger,description,category,type,source_file\n");
    let mut i: usize = 0;
    assert(records@.take(0) =~= Seq::<TriggerRecord>::empty());
    assert(out@ =~= csv_header() + csv_rows(records@.take(0)));
    while i < records.len()
        invariant
            i <= records@.len(),
            out@ == csv_header() + csv_rows(records@.take(i as int)),
        decreases records@.len() - i,
    {
        assert(records@.take(i + 1).drop_last() =~= records@.take(i as int));
        assert(records@.take(i + 1).last() == records@[i as int]);
        push_row(&mut out, &records[i]);
        out.push('\n');
        assert(out@ =~= csv_header() + csv_rows(records@.take(i + 1)));
        i = i + 1;
    }
    assert(records@.take(i as int) =~= records@);
    string_of(&out)
}

#[verifier::external_type_specification]
#[verifier::external_body]
pub struct ExJsonValue(serde_json::Value);

impl TriggerRecord {
    /// The record as a JSON object with the keys `trigger`, `description`,
    /// `category`, `type`, `tags` and `source_file`.
    ///
    /// Trusted: builds a `serde_json::Map` of the six fields, each a JSON
    /// string, and wraps it as `serde_json::Value::Object`.  The value is
    /// opaque here, so nothing is stated of it.
    #[verifier::external_body]
    pub fn to_json_value(&self) -> serde_json::Value {
        let mut m = serde_json::Map::new();
        m.insert(String::from("trigger"), serde_json::Value::String(self.trigger.clone()));
        m.insert(String::from("description"), serde_json::Value::String(self.description.clone()));
        m.insert(String::from("category"), serde_json::Value::String(self.category.clone()));
        m.insert(String::from("type"), serde_json::Value::String(self.trigger_type.clone()));
        m.insert(String::from("tags"), serde_json::Value::String(self.tags.clone()));
        m.insert(String::from("source_file"), serde_json::Value::String(self.source_file.clone()));
        serde_json::Value::Object(m)
    }
}

/// The pretty-printed JSON text of an array of records, as
/// `serde_json::to_string_pretty` writes it.
pub uninterp spec fn records_json(rs: Seq<RecordSpec>) -> Seq<char>;

/// The records as a pretty-printed JSON array of objects, one per record,
/// in order.
///
/// Trusted: turns each record into its JSON object and calls
/// `serde_json::to_string_pretty` on the array, which fails on no such
/// value.  Its text is named `records_json` of the records' characters:
/// the layout that serde_json writes is not spelled out here.
#[verifier::external_body]
pub fn records_to_json(records: &[TriggerRecord]) -> (s: String)
    ensures
        s@ == records_json(record_specs(records@)),
{
    let values: Vec<serde_json::Value> = records.iter().map(|r| r.to_json_value()).collect();
    serde_json::to_string_pretty(&values).unwrap_or_default()
}

/// `a` comes before `b` in the order of `String`: lexicographic by
/// character (which UTF-8 byte order agrees with), a proper prefix first.
pub open spec fn lex_lt(a: Seq<char>, b: Seq<char>) -> bool
    decreases a.len(),
{
    if a.len() == 0 {
        b.len() > 0
    } else if b.len() == 0 {
        false
    } else if a[0] != b[0] {
        (a[0] as u32) < (b[0] as u32)
    } else {
        lex_lt(a.drop_first(), b.drop_first())
    }
}

/// Nothing comes before itself.
pub proof fn lemma_lex_irreflexive(a: Seq<char>)
    ensures
        !lex_lt(a, a),
    decreases a.len(),
{
    if a.len() > 0 {
        lemma_lex_irreflexive(a.drop_first());
    }
}

/// Two different strings are ordered one way or the other, not both.
pub proof fn lemma_lex_total(a: Seq<char>, b: Seq<char>)
    ensures
        a != b ==> (lex_lt(a, b) || lex_lt(b, a)),
        !(lex_lt(a, b) && lex_lt(b, a)),
    decreases a.len(),
{
    if a.len() > 0 && b.len() > 0 {
        vstd::utf8::char_u32_cast(a[0], a[0] as u32);
        vstd::utf8::char_u32_cast(b[0], b[0] as u32);
        if a[0] == b[0] {
            lemma_lex_total(a.drop_first(), b.drop_first());
            if a != b {
                assert(a.drop_first() != b.drop_first()) by {
                    if a.drop_first() == b.drop_first() {
                        assert forall|i: int| 0 <= i < a.len() implies a[i] == b[i] by {
                            if i > 0 {
                                assert(a[i] == a.drop_first()[i - 1]);
                                assert(b[i] == b.drop_first()[i - 1]);
                            }
                        }
                        assert(a =~= b);
                    }
                }
            }
        }
    } else if a.len() == 0 && b.len() == 0 {
        assert(a =~= b);
    }
}

/// The order is transitive.
pub proof fn lemma_lex_transitive(a: Seq<char>, b: Seq<char>, c: Seq<char>)
    requires
        lex_lt(a, b),
        lex_lt(b, c),
    ensures
        lex_lt(a, c),
    decreases a.len(),
{
    if a.len() > 0 && b.len() > 0 && c.len() > 0 {
        if a[0] == b[0] && b[0] == c[0] {
            lemma_lex_transitive(a.drop_first(), b.drop_first(), c.drop_first());
        }
    }
}

/// `a` comes before `b`.
pub fn lex_less(a: &[char], b: &[char]) -> (r: bool)
    ensures
        r == lex_lt(a@, b@),
{
    let mut i: usize = 0;
    assert(a@.skip(0) =~= a@);
    assert(b@.skip(0) =~= b@);
    while i < a.len() && i < b.len() && a[i] == b[i]
        invariant
            i <= a@.len(),
            i <= b@.len(),
            lex_lt(a@, b@) == lex_lt(a@.skip(i as int), b@.skip(i as int)),
        decreases a@.len() - i,
    {
        assert(a@.skip(i as int).drop_first() =~= a@.skip(i + 1));
        assert(b@.skip(i as int).drop_first() =~= b@.skip(i + 1));
        i = i + 1;
    }
    if i == a.len() {
        i < b.len()
    } else if i == b.len() {
        false
    } else {
        (a[i] as u32) < (b[i] as u32)
    }
}

/// A record that was written by hand: its source starts with `manual:`.
pub open spec fn is_manual(r: TriggerRecord) -> bool {
    starts_with(r.source_file@, "manual:"@)
}

/// The records a merge draws from, in order: the generated ones, then the
/// hand-written ones among the existing records.
pub open spec fn merge_pool(auto: Seq<TriggerRecord>, existing: Seq<TriggerRecord>) -> Seq<
    TriggerRecord,
> {
    auto + manual_rows(existing)
}

/// The hand-written records among `existing`, in order.
pub open spec fn manual_rows(existing: Seq<TriggerRecord>) -> Seq<TriggerRecord> {
    existing.filter(|r: TriggerRecord| is_manual(r))
}

/// No later record of `pool` has the trigger of record `p`.
pub open spec fn last_of_trigger(pool: Seq<TriggerRecord>, p: int) -> bool {
    &&& 0 <= p < pool.len()
    &&& forall|q: int| p < q < pool.len() ==> pool[q].trigger@ != pool[p].trigger@
}

/// Some record of `res` has trigger `t`.
pub open spec fn has_trigger(res: Seq<TriggerRecord>, t: Seq<char>) -> bool {
    exists|i: int| 0 <= i < res.len() && res[i].trigger@ == t
}

/// Record `r` is the last record of `pool` with its trigger.
pub open spec fn from_pool(pool: Seq<TriggerRecord>, r: TriggerRecord) -> bool {
    exists|p: int| last_of_trigger(pool, p) && pool[p] == r
}

/// `res` holds, for each trigger of `pool`, the last record of `pool` with
/// that trigger, ordered by trigger.
pub open spec fn merged_from(pool: Seq<TriggerRecord>, res: Seq<TriggerRecord>) -> bool {
    &&& forall|i: int, j: int| 0 <= i < j < res.len() ==> lex_lt(res[i].trigger@, res[j].trigger@)
    &&& forall|i: int| 0 <= i < res.len() ==> #[trigger] from_pool(pool, res[i])
    &&& forall|p: int| 0 <= p < pool.len() ==> #[trigger] has_trigger(res, pool[p].trigger@)
}

/// Adding the next record of the pool where its trigger belongs keeps the
/// merge correct for the longer pool.
proof fn lemma_merge_step(
    pool: Seq<TriggerRecord>,
    res: Seq<TriggerRecord>,
    x: TriggerRecord,
    pos: int,
    replace: bool,
)
    requires
        merged_from(pool, res),
        0 <= pos <= res.len(),
        forall|k: int| 0 <= k < pos ==> lex_lt(#[trigger] res[k].trigger@, x.trigger@),
        replace ==> pos < res.len() && res[pos].trigger@ == x.trigger@,
        !replace ==> forall|k: int| pos <= k < res.len() ==> lex_lt(x.trigger@, #[trigger] res[k].trigger@),
    ensures
        merged_from(pool.push(x), if replace {
            res.update(pos, x)
        } else {
            res.insert(pos, x)
        }),
{
    let np = pool.push(x);
    let nr = if replace {
        res.update(pos, x)
    } else {
        res.insert(pos, x)
    };
    let n = pool.len() as int;
    assert(np[n] == x);
    assert(last_of_trigger(np, n));
    // Order.
    assert forall|i: int, j: int| 0 <= i < j < nr.len() implies lex_lt(nr[i].trigger@, nr[j].trigger@) by {
        if replace {
            if i == pos {
                assert(lex_lt(res[i].trigger@, res[j].trigger@));
            } else if j == pos {
                assert(lex_lt(res[i].trigger@, res[j].trigger@));
            }
        } else {
            if j < pos {
            } else if j == pos {
            } else if i < pos {
                assert(nr[j] == res[j - 1]);
                lemma_lex_transitive(res[i].trigger@, x.trigger@, res[j - 1].trigger@);
            } else if i == pos {
                assert(nr[j] == res[j - 1]);
            } else {
                assert(nr[i] == res[i - 1] && nr[j] == res[j - 1]);
            }
        }
    }
    // Each record is the last of its trigger.
    assert forall|i: int| 0 <= i < nr.len() implies #[trigger] from_pool(np, nr[i]) by {
        if nr[i] == x && (i == pos) {
            assert(last_of_trigger(np, n) && np[n] == x);
        } else {
            let k = if replace || i < pos {
                i
            } else {
                i - 1
            };
            assert(nr[i] == res[k]);
            assert(from_pool(pool, res[k]));
            let p = choose|p: int| last_of_trigger(pool, p) && pool[p] == res[k];
            assert(res[k].trigger@ != x.trigger@) by {
                if replace {
                    if k != pos {
                        if k < pos {
                            assert(lex_lt(res[k].trigger@, res[pos].trigger@));
                            lemma_lex_irreflexive(x.trigger@);
                        } else {
                            assert(lex_lt(res[pos].trigger@, res[k].trigger@));
                            lemma_lex_irreflexive(x.trigger@);
                        }
                    }
                } else {
                    if k < pos {
                        lemma_lex_irreflexive(x.trigger@);
                    } else {
                        lemma_lex_irreflexive(x.trigger@);
                    }
                }
            }
            assert(last_of_trigger(np, p));
            assert(np[p] == res[k]);
        }
    }
    // Every trigger is present.
    assert forall|p: int| 0 <= p < np.len() implies #[trigger] has_trigger(nr, np[p].trigger@) by {
        if p == n {
            assert(nr[pos] == x);
        } else {
            assert(np[p] == pool[p]);
            assert(has_trigger(res, pool[p].trigger@));
            let i = choose|i: int| 0 <= i < res.len() && res[i].trigger@ == pool[p].trigger@;
            if replace {
                if i == pos {
                    assert(nr[pos].trigger@ == pool[p].trigger@);
                } else {
                    assert(nr[i] == res[i]);
                }
            } else {
                if i < pos {
                    assert(nr[i] == res[i]);
                } else {
                    assert(nr[i + 1] == res[i]);
                }
            }
        }
    }
}

/// Merges generated records with the existing database: every hand-written
/// record (source starting with `manual:`) is kept, and takes the place of
/// a generated record of the same trigger; of records with the same
/// trigger, the last one wins.  The result is ordered by trigger.
pub fn merge_records(auto: Vec<TriggerRecord>, existing: Vec<TriggerRecord>) -> (r: Vec<
    TriggerRecord,
>)
    ensures
        merged_from(merge_pool(auto@, existing@), r@),
{
    let ghost pred = |r: TriggerRecord| is_manual(r);
    let mut pool: Vec<TriggerRecord> = auto;
    let ghost auto_view = pool@;
    let mut existing = existing;
    let ghost ex = existing@;
    let ghost mut taken: int = 0;
    assert(ex.take(0) =~= Seq::<TriggerRecord>::empty());
    assert(ex.skip(0) =~= ex);
    let prefix = chars_of("manual:");
    while existing.len() > 0
        invariant
            0 <= taken <= ex.len(),
            existing@ == ex.skip(taken),
            pool@ == auto_view + ex.take(taken).filter(pred),
            pred == (|r: TriggerRecord| is_manual(r)),
            prefix@ == "manual:"@,
        decreases existing@.len(),
    {
        let r = existing.remove(0);
        proof {
            assert(ex[taken] == r);
            assert(ex.take(taken + 1).drop_last() =~= ex.take(taken));
            assert(ex.skip(taken).drop_first() =~= ex.skip(taken + 1));
            ex.take(taken).lemma_filter_push(r, pred);
            assert(ex.take(taken + 1) =~= ex.take(taken).push(r));
        }
        let manual_row = has_prefix(&chars_of(r.source_file.as_str()), &prefix);
        if manual_row {
            pool.push(r);
        }
        proof {
            taken = taken + 1;
        }
    }
    assert(ex.take(taken) =~= ex);
    let ghost all = pool@;
    assert(all == merge_pool(auto_view, ex));
    let mut result: Vec<TriggerRecord> = Vec::new();
    let total = pool.len();
    let mut done: usize = 0;
    assert(all.take(0) =~= Seq::<TriggerRecord>::empty());
    assert(all.skip(0) =~= all);
    while pool.len() > 0
        invariant
            done <= all.len(),
            all.len() == total,
            pool@ == all.skip(done as int),
            merged_from(all.take(done as int), result@),
        decreases pool@.len(),
    {
        let x = pool.remove(0);
        proof {
            assert(all[done as int] == x);
            assert(all.take(done + 1) =~= all.take(done as int).push(x));
            assert(all.skip(done as int).drop_first() =~= all.skip(done + 1));
        }
        let key = chars_of(x.trigger.as_str());
        let mut pos: usize = 0;
        while pos < result.len() && lex_less(&chars_of(result[pos].trigger.as_str()), &key)
            invariant
                pos <= result@.len(),
                key@ == x.trigger@,
                forall|k: int| 0 <= k < pos ==> lex_lt(#[trigger] result@[k].trigger@, key@),
            decreases result@.len() - pos,
        {
            pos = pos + 1;
        }
        let ghost res0 = result@;
        let replace = pos < result.len() && chars_eq(&chars_of(result[pos].trigger.as_str()), &key);
        proof {
            let tk = all.take(done as int);
            if !replace {
                assert forall|k: int| pos <= k < res0.len() implies lex_lt(
                    x.trigger@,
                    #[trigger] res0[k].trigger@,
                ) by {
                    lemma_lex_total(x.trigger@, res0[pos as int].trigger@);
                    if k > pos {
                        lemma_lex_transitive(x.trigger@, res0[pos as int].trigger@, res0[k].trigger@);
                    }
                }
            }
            lemma_merge_step(tk, res0, x, pos as int, replace);
        }
        if replace {
            result.set(pos, x);
        } else {
            result.insert(pos, x);
        }
        done = done + 1;
    }
    assert(all.take(done as int) =~= all);
    result
}

/// A merge keeps, for every trigger, the record that came last: each
/// record of the pool that no later record of the pool shares a trigger
/// with is in the result.
pub proof fn law_merge_keeps_last_record(pool: Seq<TriggerRecord>, res: Seq<TriggerRecord>, p: int)
    requires
        merged_from(pool, res),
        last_of_trigger(pool, p),
    ensures
        exists|k: int| 0 <= k < res.len() && res[k] == pool[p],
{
    assert(has_trigger(res, pool[p].trigger@));
    let k = choose|k: int| 0 <= k < res.len() && res[k].trigger@ == pool[p].trigger@;
    assert(from_pool(pool, res[k]));
    let q = choose|q: int| last_of_trigger(pool, q) && pool[q] == res[k];
    if q < p {
        assert(pool[p].trigger@ != pool[q].trigger@);
    } else if p < q {
        assert(pool[q].trigger@ != pool[p].trigger@);
    }
}

/// A merge keeps hand-written records: a hand-written existing record that
/// no later hand-written record shares a trigger with is in the result.
pub proof fn law_merge_keeps_manual(
    auto: Seq<TriggerRecord>,
    existing: Seq<TriggerRecord>,
    res: Seq<TriggerRecord>,
    q: int,
)
    requires
        merged_from(merge_pool(auto, existing), res),
        0 <= q < manual_rows(existing).len(),
        forall|q2: int|
            q < q2 < manual_rows(existing).len() ==> #[trigger] manual_rows(existing)[q2].trigger@
                != manual_rows(existing)[q].trigger@,
    ensures
        exists|k: int| 0 <= k < res.len() && res[k] == manual_rows(existing)[q],
{
    let pool = merge_pool(auto, existing);
    let m = manual_rows(existing);
    let p = auto.len() + q;
    assert(pool[p] == m[q]);
    assert forall|r: int| p < r < pool.len() implies pool[r].trigger@ != pool[p].trigger@ by {
        assert(pool[r] == m[r - auto.len()]);
    }
    law_merge_keeps_last_record(pool, res, p);
}

/// A merge lists every trigger of the pool once: no two records of the
/// result share a trigger, and every trigger of the pool is there.
pub proof fn law_merge_triggers_once(pool: Seq<TriggerRecord>, res: Seq<TriggerRecord>)
    requires
        merged_from(pool, res),
    ensures
        forall|i: int, j: int| 0 <= i < j < res.len() ==> res[i].trigger@ != res[j].trigger@,
        forall|p: int| 0 <= p < pool.len() ==> #[trigger] has_trigger(res, pool[p].trigger@),
{
    assert forall|i: int, j: int| 0 <= i < j < res.len() implies res[i].trigger@ != res[j].trigger@ by {
        lemma_lex_irreflexive(res[i].trigger@);
    }
}

/// Two lists sorted by trigger, each holding every record of the other,
/// are the same list.
proof fn lemma_sorted_same(x: Seq<TriggerRecord>, y: Seq<TriggerRecord>)
    requires
        forall|i: int, j: int| 0 <= i < j < x.len() ==> lex_lt(x[i].trigger@, x[j].trigger@),
        forall|i: int, j: int| 0 <= i < j < y.len() ==> lex_lt(y[i].trigger@, y[j].trigger@),
        forall|i: int| 0 <= i < x.len() ==> y.contains(#[trigger] x[i]),
        forall|j: int| 0 <= j < y.len() ==> x.contains(#[trigger] y[j]),
    ensures
        x == y,
    decreases x.len(),
{
    if x.len() == 0 {
        if y.len() > 0 {
            assert(x.contains(y[0]));
        }
        assert(x =~= y);
    } else {
        assert(y.contains(x[0]));
        let j = choose|j: int| 0 <= j < y.len() && y[j] == x[0];
        assert(x.contains(y[0]));
        let i = choose|i: int| 0 <= i < x.len() && x[i] == y[0];
        if j > 0 {
            assert(lex_lt(y[0].trigger@, y[j].trigger@));
            if i == 0 {
                lemma_lex_irreflexive(x[0].trigger@);
            } else {
                assert(lex_lt(x[0].trigger@, x[i].trigger@));
                lemma_lex_transitive(x[0].trigger@, y[0].trigger@, x[0].trigger@);
                lemma_lex_irreflexive(x[0].trigger@);
            }
        }
        assert(x[0] == y[0]);
        let xs = x.drop_first();
        let ys = y.drop_first();
        assert forall|a: int| 0 <= a < xs.len() implies ys.contains(#[trigger] xs[a]) by {
            assert(xs[a] == x[a + 1]);
            assert(y.contains(x[a + 1]));
            let b = choose|b: int| 0 <= b < y.len() && y[b] == x[a + 1];
            if b == 0 {
                assert(lex_lt(x[0].trigger@, x[a + 1].trigger@));
                lemma_lex_irreflexive(x[0].trigger@);
            }
            assert(ys[b - 1] == y[b]);
        }
        assert forall|b: int| 0 <= b < ys.len() implies xs.contains(#[trigger] ys[b]) by {
            assert(ys[b] == y[b + 1]);
            assert(x.contains(y[b + 1]));
            let a = choose|a: int| 0 <= a < x.len() && x[a] == y[b + 1];
            if a == 0 {
                assert(lex_lt(y[0].trigger@, y[b + 1].trigger@));
                lemma_lex_irreflexive(y[0].trigger@);
            }
            assert(xs[a - 1] == x[a]);
        }
        lemma_sorted_same(xs, ys);
        assert(x =~= seq![x[0]] + xs);
        assert(y =~= seq![y[0]] + ys);
    }
}

/// Merging again with the same existing records changes nothing: merging
/// the result of a merge with the same existing records gives that result.
pub proof fn law_merge_again_changes_nothing(
    auto: Seq<TriggerRecord>,
    existing: Seq<TriggerRecord>,
    r1: Seq<TriggerRecord>,
    r2: Seq<TriggerRecord>,
)
    requires
        merged_from(merge_pool(auto, existing), r1),
        merged_from(merge_pool(r1, existing), r2),
    ensures
        r2 == r1,
{
    let m = manual_rows(existing);
    let pool = merge_pool(auto, existing);
    let pool2 = merge_pool(r1, existing);
    assert forall|k: int| 0 <= k < r2.len() implies r1.contains(#[trigger] r2[k]) by {
        assert(from_pool(pool2, r2[k]));
        let p = choose|p: int| last_of_trigger(pool2, p) && pool2[p] == r2[k];
        if p < r1.len() {
            assert(pool2[p] == r1[p]);
        } else {
            let q = p - r1.len();
            let pa = auto.len() + q;
            assert(pool2[p] == m[q]);
            assert(pool[pa] == m[q]);
            assert forall|r: int| pa < r < pool.len() implies pool[r].trigger@ != pool[pa].trigger@ by {
                assert(pool[r] == m[r - auto.len()]);
                assert(pool2[r - auto.len() + r1.len()] == m[r - auto.len()]);
            }
            assert(last_of_trigger(pool, pa));
            law_merge_keeps_last_record(pool, r1, pa);
        }
    }
    assert forall|i: int| 0 <= i < r1.len() implies r2.contains(#[trigger] r1[i]) by {
        assert(pool2[i] == r1[i]);
        assert(has_trigger(r2, pool2[i].trigger@));
        let k = choose|k: int| 0 <= k < r2.len() && r2[k].trigger@ == pool2[i].trigger@;
        assert(r1.contains(r2[k]));
        let i2 = choose|i2: int| 0 <= i2 < r1.len() && r1[i2] == r2[k];
        if i2 < i {
            assert(lex_lt(r1[i2].trigger@, r1[i].trigger@));
            lemma_lex_irreflexive(r1[i].trigger@);
        } else if i < i2 {
            assert(lex_lt(r1[i].trigger@, r1[i2].trigger@));
            lemma_lex_irreflexive(r1[i].trigger@);
        }
    }
    lemma_sorted_same(r2, r1);
}

/// The tag that a trigger gives: for a trigger that starts with `:`, the
/// rest without its trailing ASCII punctuation, when anything is left.
pub open spec fn prefix_tags(trigger: Seq<char>) -> Seq<Seq<char>> {
    if trigger.len() > 0 && trigger[0] == ':' {
        let p = trim_end_by(trigger.drop_first(), CharClass::AsciiPunct);
        if p.len() > 0 {
            seq![p]
        } else {
            seq![]
        }
    } else {
        seq![]
    }
}

/// The tags after the words of a description are added, each word given
/// by its key (the word trimmed and lowercased): each key that takes at
/// least 3 bytes and is not a tag yet.
pub open spec fn add_word_tags(tags: Seq<Seq<char>>, keys: Seq<Seq<char>>) -> Seq<Seq<char>>
    decreases keys.len(),
{
    if keys.len() == 0 {
        tags
    } else {
        let acc = add_word_tags(tags, keys.drop_last());
        let w = keys.last();
        if byte_len(w) >= 3 && !acc.contains(w) {
            acc.push(w)
        } else {
            acc
        }
    }
}

/// The keys of the words of a description (split at whitespace, `,` and
/// `.`): each word trimmed and lowercased.
pub open spec fn word_keys(description: Seq<char>) -> Seq<Seq<char>> {
    split_by(description, CharClass::WordSep).map_values(|w: Seq<char>| lowercase(trim(w)))
}

/// The first 8 of a list.
pub open spec fn first_eight(l: Seq<Seq<char>>) -> Seq<Seq<char>> {
    if l.len() > 8 {
        l.take(8)
    } else {
        l
    }
}

/// The search tags of a trigger, given the keys of its description's
/// words: its prefix tag, then the word tags, at most 8, joined by `, `.
pub open spec fn tags_from_keys(trigger: Seq<char>, keys: Seq<Seq<char>>) -> Seq<char> {
    join(first_eight(add_word_tags(prefix_tags(trigger), keys)), seq![',', ' '])
}

/// The search tags of a trigger and its description.
pub open spec fn tags_spec(trigger: Seq<char>, description: Seq<char>) -> Seq<char> {
    tags_from_keys(trigger, word_keys(description))
}

/// Adding word tags never repeats a tag.
proof fn lemma_word_tags_distinct(tags: Seq<Seq<char>>, words: Seq<Seq<char>>)
    requires
        tags.no_duplicates(),
    ensures
        add_word_tags(tags, words).no_duplicates(),
    decreases words.len(),
{
    if words.len() > 0 {
        lemma_word_tags_distinct(tags, words.drop_last());
    }
}

/// A trigger gets at most 8 tags, none of them twice.
pub proof fn law_tags_distinct_and_few(trigger: Seq<char>, description: Seq<char>)
    ensures
        first_eight(add_word_tags(prefix_tags(trigger), word_keys(description))).len() <= 8,
        first_eight(add_word_tags(prefix_tags(trigger), word_keys(description))).no_duplicates(),
{
    let l = add_word_tags(prefix_tags(trigger), word_keys(description));
    lemma_word_tags_distinct(prefix_tags(trigger), word_keys(description));
    if l.len() > 8 {
        assert forall|i: int, j: int| 0 <= i < j < 8 implies l.take(8)[i] != l.take(8)[j] by {
            assert(l[i] != l[j]);
        }
    }
}

/// Whether the list holds `w`.
fn list_has(l: &Vec<Vec<char>>, w: &Vec<char>) -> (r: bool)
    ensures
        r == l@.map_values(|v: Vec<char>| v@).contains(w@),
{
    let ghost lv = l@.map_values(|v: Vec<char>| v@);
    let mut i: usize = 0;
    while i < l.len()
        invariant
            lv == l@.map_values(|v: Vec<char>| v@),
            i <= l@.len(),
            forall|j: int| 0 <= j < i ==> lv[j] != w@,
        decreases l@.len() - i,
    {
        if chars_eq(&l[i], w) {
            assert(lv[i as int] == w@);
            return true;
        }
        i = i + 1;
    }
    false
}

/// The parts joined, with `, ` between each two.
fn join_tags(parts: &Vec<Vec<char>>, n: usize) -> (r: Vec<char>)
    requires
        n <= parts@.len(),
    ensures
        r@ == join(parts@.map_values(|v: Vec<char>| v@).take(n as int), seq![',', ' ']),
{
    let ghost pv = parts@.map_values(|v: Vec<char>| v@);
    let mut out: Vec<char> = Vec::new();
    let mut i: usize = 0;
    assert(pv.take(0) =~= Seq::<Seq<char>>::empty());
    while i < n
        invariant
            pv == parts@.map_values(|v: Vec<char>| v@),
            i <= n <= parts@.len(),
            out@ == join(pv.take(i as int), seq![',', ' ']),
        decreases n - i,
    {
        assert(pv.take(i + 1).drop_last() =~= pv.take(i as int));
        assert(pv.take(i + 1).last() == parts@[i as int]@);
        if i > 0 {
            out.push(',');
            out.push(' ');
        }
        let ghost before = out@;
        let part = &parts[i];
        let mut k: usize = 0;
        while k < part.len()
            invariant
                k <= part@.len(),
                out@ == before + part@.take(k as int),
            decreases part@.len() - k,
        {
            out.push(part[k]);
            k = k + 1;
            assert(out@ =~= before + part@.take(k as int));
        }
        assert(part@.take(k as int) =~= part@);
        if i == 0 {
            assert(pv.take(1).len() == 1);
            assert(out@ =~= join(pv.take(1), seq![',', ' ']));
        }
        i = i + 1;
    }
    out
}

/// The search tags of a trigger, given the keys of its description's
/// words (each word trimmed and lowercased).
pub fn tags_from_words(trigger: &str, keys: &[String]) -> (r: String)
    ensures
        r@ == tags_from_keys(trigger@, strings_view(keys@)),
{
    let mut tags: Vec<Vec<char>> = Vec::new();
    let t = chars_of(trigger);
    if t.len() > 0 && t[0] == ':' {
        let rest = copy_range(&t, 1, t.len());
        assert(rest@ =~= t@.drop_first());
        let p = trim_end_chars(&rest, CharClass::AsciiPunct);
        if p.len() > 0 {
            tags.push(p);
        }
    }
    let ghost start = tags@.map_values(|v: Vec<char>| v@);
    assert(start =~= prefix_tags(trigger@));
    let ghost kv = strings_view(keys@);
    let mut i: usize = 0;
    assert(kv.take(0) =~= Seq::<Seq<char>>::empty());
    while i < keys.len()
        invariant
            kv == strings_view(keys@),
            i <= keys@.len(),
            tags@.map_values(|v: Vec<char>| v@) == add_word_tags(prefix_tags(trigger@), kv.take(i as int)),
        decreases keys@.len() - i,
    {
        assert(kv.take(i + 1).drop_last() =~= kv.take(i as int));
        assert(kv.take(i + 1).last() == keys@[i as int]@);
        let n = str_byte_len(keys[i].as_str());
        let w = chars_of(keys[i].as_str());
        if n >= 3 && !list_has(&tags, &w) {
            let ghost before = tags@.map_values(|v: Vec<char>| v@);
            tags.push(w);
            assert(tags@.map_values(|v: Vec<char>| v@) =~= before.push(w@));
        }
        i = i + 1;
    }
    assert(kv.take(i as int) =~= kv);
    let n = if tags.len() > 8 {
        8
    } else {
        tags.len()
    };
    let out = join_tags(&tags, n);
    proof {
        let tv = tags@.map_values(|v: Vec<char>| v@);
        if tags@.len() <= 8 {
            assert(tv.take(n as int) =~= tv);
        }
    }
    string_of(&out)
}

/// The search tags of a trigger and its description: the trigger's name
/// after `:` and the longer words of the description, at most 8.
pub fn extract_tags(trigger: &str, description: &str) -> (r: String)
    ensures
        r@ == tags_spec(trigger@, description@),
{
    let words = split_chars(&chars_of(description), CharClass::WordSep);
    let ghost wv = split_by(description@, CharClass::WordSep);
    let ghost want = word_keys(description@);
    let mut keys: Vec<String> = Vec::new();
    let mut i: usize = 0;
    while i < words.len()
        invariant
            words@.len() == wv.len(),
            forall|q: int| 0 <= q < words@.len() ==> #[trigger] words@[q]@ == wv[q],
            want == wv.map_values(|w: Seq<char>| lowercase(trim(w))),
            i <= words@.len(),
            strings_view(keys@) == want.take(i as int),
        decreases words@.len() - i,
    {
        let trimmed = trim_chars(&words[i]);
        let key = to_lowercase(string_of(&trimmed).as_str());
        let ghost before = strings_view(keys@);
        keys.push(key);
        assert(strings_view(keys@) =~= before.push(want[i as int]));
        assert(want.take(i + 1) =~= want.take(i as int).push(want[i as int]));
        i = i + 1;
    }
    assert(want.take(i as int) =~= want);
    tags_from_words(trigger, &keys)
}

/// A trigger record by its characters.
pub struct RecordSpec {
    pub trigger: Seq<char>,
    pub description: Seq<char>,
    pub category: Seq<char>,
    pub trigger_type: Seq<char>,
    pub tags: Seq<char>,
    pub source_file: Seq<char>,
}

impl View for TriggerRecord {
    type V = RecordSpec;

    open spec fn view(&self) -> RecordSpec {
        RecordSpec {
            trigger: self.trigger@,
            description: self.description@,
            category: self.category@,
            trigger_type: self.trigger_type@,
            tags: self.tags@,
            source_file: self.source_file@,
        }
    }
}

/// The text that describes a match: its search label, else its
/// replacement, else its form.
pub open spec fn description_source(m: MatchFile) -> Option<Seq<char>> {
    match opt_view(m.search_label) {
        Some(s) => Some(s),
        None => match opt_view(m.replace) {
            Some(s) => Some(s),
            None => opt_view(m.form),
        },
    }
}

/// A match's description: its text trimmed, cut to 77 bytes and `...` when
/// it takes more than 80 bytes; empty when it has no text.
pub open spec fn describe(m: MatchFile) -> Seq<char> {
    match description_source(m) {
        Some(s) => {
            let t = trim(s);
            if byte_len(t) > 80 {
                byte_prefix(t, 77) + "..."@
            } else {
                t
            }
        },
        None => seq![],
    }
}

/// The description of a match can be cut where it is cut.
pub open spec fn describable(m: MatchFile) -> bool {
    match description_source(m) {
        Some(s) => byte_len(trim(s)) > 80 ==> is_char_boundary(trim(s), 77),
        None => true,
    }
}

/// The decimal digits of `n`.
pub open spec fn decimal(n: nat) -> Seq<char>
    decreases n,
{
    if n < 10 {
        seq![digit_char(n)]
    } else {
        decimal(n / 10).push(digit_char(n % 10))
    }
}

/// The digit for `d` below 10.
pub open spec fn digit_char(d: nat) -> char {
    if d == 0 { '0' } else if d == 1 { '1' } else if d == 2 { '2' } else if d == 3 { '3' }
    else if d == 4 { '4' } else if d == 5 { '5' } else if d == 6 { '6' } else if d == 7 { '7' }
    else if d == 8 { '8' } else { '9' }
}

fn digit_of(d: usize) -> (c: char)
    requires
        d < 10,
    ensures
        c == digit_char(d as nat),
{
    if d == 0 { '0' } else if d == 1 { '1' } else if d == 2 { '2' } else if d == 3 { '3' }
    else if d == 4 { '4' } else if d == 5 { '5' } else if d == 6 { '6' } else if d == 7 { '7' }
    else if d == 8 { '8' } else { '9' }
}

/// The decimal digits of `n`.
pub fn decimal_chars(n: usize) -> (r: Vec<char>)
    ensures
        r@ == decimal(n as nat),
    decreases n,
{
    if n < 10 {
        let r = vec![digit_of(n)];
        assert(r@ =~= decimal(n as nat));
        r
    } else {
        let mut r = decimal_chars(n / 10);
        r.push(digit_of(n % 10));
        r
    }
}

/// How a trigger is listed: as it is the first time, with ` [n]` after it
/// for its `n`-th repetition.
pub open spec fn display_trigger(t: Seq<char>, prior: nat) -> Seq<char> {
    if prior > 0 {
        t + seq![' ', '['] + decimal(prior) + seq![']']
    } else {
        t
    }
}

/// How often `x` occurs in `s`.
pub open spec fn count_eq(s: Seq<Seq<char>>, x: Seq<char>) -> nat
    decreases s.len(),
{
    if s.len() == 0 {
        0
    } else {
        count_eq(s.drop_last(), x) + if s.last() == x {
            1nat
        } else {
            0nat
        }
    }
}

/// A match's trigger in the database.
pub open spec fn record_for(src: (Seq<char>, Seq<char>), m: MatchFile, t: Seq<char>, prior: nat) -> RecordSpec {
    RecordSpec {
        trigger: display_trigger(t, prior),
        description: describe(m),
        category: src.0,
        trigger_type: if m.form is Some {
            "form"@
        } else {
            "text"@
        },
        tags: tags_spec(t, describe(m)),
        source_file: src.1,
    }
}

/// The category of a file's records: the stem of its file name, or
/// `unknown` when it has none.
pub open spec fn source_name(stem: Option<Seq<char>>) -> Seq<char> {
    match stem {
        Some(s) => s,
        None => "unknown"@,
    }
}

/// Optional strings by their characters.
pub open spec fn stems_view(v: Seq<Option<String>>) -> Seq<Option<Seq<char>>> {
    v.map_values(|s: Option<String>| opt_view(s))
}

/// Every trigger of every match of every file, in order, with the file's
/// category (from the stem at the same position of `stems`) and path, and
/// the match.
pub open spec fn trigger_entries(cs: Seq<(String, Config)>, stems: Seq<Option<Seq<char>>>) -> Seq<
    ((Seq<char>, Seq<char>), MatchFile, Seq<char>),
>
    decreases cs.len(),
{
    if cs.len() == 0 {
        seq![]
    } else {
        trigger_entries(cs.drop_last(), stems) + match_entries(
            (source_name(stems[cs.len() - 1]), cs.last().0@),
            cs.last().1.matches@,
        )
    }
}

/// Every trigger of every match, in order, with the file's name and the match.
pub open spec fn match_entries(src: (Seq<char>, Seq<char>), ms: Seq<MatchFile>) -> Seq<
    ((Seq<char>, Seq<char>), MatchFile, Seq<char>),
>
    decreases ms.len(),
{
    if ms.len() == 0 {
        seq![]
    } else {
        match_entries(src, ms.drop_last()) + trigger_list(ms.last()).map_values(
            |t: Seq<char>| (src, ms.last(), t),
        )
    }
}

/// The triggers of a list of entries.
pub open spec fn entry_triggers(es: Seq<((Seq<char>, Seq<char>), MatchFile, Seq<char>)>) -> Seq<Seq<char>> {
    es.map_values(|e: ((Seq<char>, Seq<char>), MatchFile, Seq<char>)| e.2)
}

/// The records of a list of entries: each trigger numbered by how often it
/// came before.
pub open spec fn records_spec(es: Seq<((Seq<char>, Seq<char>), MatchFile, Seq<char>)>) -> Seq<RecordSpec> {
    Seq::new(
        es.len(),
        |k: int| record_for(es[k].0, es[k].1, es[k].2, count_eq(entry_triggers(es.take(k)), es[k].2)),
    )
}

/// Each entry of a file's matches is one of those matches, with the file.
proof fn lemma_match_entries_from(src: (Seq<char>, Seq<char>), ms: Seq<MatchFile>)
    ensures
        forall|k: int|
            0 <= k < match_entries(src, ms).len() ==> (#[trigger] match_entries(src, ms)[k]).0 == src
                && ms.contains(match_entries(src, ms)[k].1),
    decreases ms.len(),
{
    if ms.len() > 0 {
        let init = ms.drop_last();
        lemma_match_entries_from(src, init);
        let a = match_entries(src, init);
        let b = trigger_list(ms.last()).map_values(|t: Seq<char>| (src, ms.last(), t));
        let es = match_entries(src, ms);
        assert(es == a + b);
        assert forall|k: int| 0 <= k < es.len() implies (#[trigger] es[k]).0 == src && ms.contains(es[k].1) by {
            if k < a.len() {
                assert(es[k] == a[k]);
                let j = choose|j: int| 0 <= j < init.len() && init[j] == a[k].1;
                assert(ms[j] == init[j]);
            } else {
                assert(es[k] == b[k - a.len()]);
                assert(ms[ms.len() - 1] == ms.last());
            }
        }
    }
}

/// Each entry of the files is a match of one of the files, with that
/// file's category and path.
proof fn lemma_trigger_entries_from(cs: Seq<(String, Config)>, stems: Seq<Option<Seq<char>>>)
    ensures
        forall|k: int|
            0 <= k < trigger_entries(cs, stems).len() ==> exists|i: int|
                #![trigger cs[i]]
                0 <= i < cs.len() && (#[trigger] trigger_entries(cs, stems)[k]).0 == (
                    source_name(stems[i]),
                    cs[i].0@,
                ) && cs[i].1.matches@.contains(trigger_entries(cs, stems)[k].1),
    decreases cs.len(),
{
    if cs.len() > 0 {
        let init = cs.drop_last();
        lemma_trigger_entries_from(init, stems);
        let n = cs.len() - 1;
        let src = (source_name(stems[n]), cs.last().0@);
        lemma_match_entries_from(src, cs.last().1.matches@);
        let a = trigger_entries(init, stems);
        let b = match_entries(src, cs.last().1.matches@);
        let es = trigger_entries(cs, stems);
        assert(es == a + b);
        assert forall|k: int| 0 <= k < es.len() implies exists|i: int|
            #![trigger cs[i]]
            0 <= i < cs.len() && (#[trigger] es[k]).0 == (source_name(stems[i]), cs[i].0@)
                && cs[i].1.matches@.contains(es[k].1) by {
            if k < a.len() {
                assert(es[k] == a[k]);
                let i = choose|i: int|
                    #![trigger init[i]]
                    0 <= i < init.len() && a[k].0 == (source_name(stems[i]), init[i].0@)
                        && init[i].1.matches@.contains(a[k].1);
                assert(cs[i] == init[i]);
            } else {
                assert(es[k] == b[k - a.len()]);
                assert(cs[n] == cs.last());
            }
        }
    }
}

/// A description as it is listed: trimmed, and when it takes more than 80
/// bytes its first 77 bytes and `...`.
pub open spec fn listed_text(s: Seq<char>) -> Seq<char> {
    if byte_len(trim(s)) > 80 {
        byte_prefix(trim(s), 77) + "..."@
    } else {
        trim(s)
    }
}

/// A match is described by its search label whenever it has one, whatever
/// its replacement or form; without a label, by its replacement; with
/// neither, by its form.  Each record of the files comes from a match of
/// one file, carries that file's path and category, and is described so.
pub proof fn law_label_describes(cs: Seq<(String, Config)>, stems: Seq<Option<Seq<char>>>)
    ensures
        forall|k: int|
            0 <= k < records_spec(trigger_entries(cs, stems)).len() ==> exists|i: int, j: int|
                #![trigger cs[i].1.matches@[j]]
                0 <= i < cs.len() && 0 <= j < cs[i].1.matches@.len() && (#[trigger] records_spec(
                    trigger_entries(cs, stems),
                )[k]).source_file == cs[i].0@ && records_spec(trigger_entries(cs, stems))[k].category
                    == source_name(stems[i]) && (cs[i].1.matches@[j].search_label matches Some(l)
                    ==> records_spec(trigger_entries(cs, stems))[k].description == listed_text(l@)) && (
                cs[i].1.matches@[j].search_label is None && cs[i].1.matches@[j].replace is Some
                    ==> records_spec(trigger_entries(cs, stems))[k].description == listed_text(
                    cs[i].1.matches@[j].replace.unwrap()@,
                )) && (cs[i].1.matches@[j].search_label is None && cs[i].1.matches@[j].replace is None
                    && cs[i].1.matches@[j].form is Some ==> records_spec(trigger_entries(cs, stems))[k].description
                    == listed_text(cs[i].1.matches@[j].form.unwrap()@)),
{
    lemma_trigger_entries_from(cs, stems);
    assert forall|k: int| 0 <= k < records_spec(trigger_entries(cs, stems)).len() implies exists|i: int, j: int|
        #![trigger cs[i].1.matches@[j]]
        0 <= i < cs.len() && 0 <= j < cs[i].1.matches@.len() && (#[trigger] records_spec(
            trigger_entries(cs, stems),
        )[k]).source_file == cs[i].0@ && records_spec(trigger_entries(cs, stems))[k].category == source_name(
            stems[i],
        ) && (cs[i].1.matches@[j].search_label matches Some(l)
            ==> records_spec(trigger_entries(cs, stems))[k].description == listed_text(l@)) && (
        cs[i].1.matches@[j].search_label is None && cs[i].1.matches@[j].replace is Some
            ==> records_spec(trigger_entries(cs, stems))[k].description == listed_text(
            cs[i].1.matches@[j].replace.unwrap()@,
        )) && (cs[i].1.matches@[j].search_label is None && cs[i].1.matches@[j].replace is None
            && cs[i].1.matches@[j].form is Some ==> records_spec(trigger_entries(cs, stems))[k].description
            == listed_text(cs[i].1.matches@[j].form.unwrap()@)) by {
        let es = trigger_entries(cs, stems);
        assert(0 <= k < es.len());
        let e = es[k];
        let i = choose|i: int|
            #![trigger cs[i]]
            0 <= i < cs.len() && e.0 == (source_name(stems[i]), cs[i].0@) && cs[i].1.matches@.contains(e.1);
        let j = choose|j: int| 0 <= j < cs[i].1.matches@.len() && cs[i].1.matches@[j] == e.1;
        assert(records_spec(es)[k] == record_for(e.0, e.1, e.2, count_eq(entry_triggers(es.take(k)), e.2)));
        assert(cs[i].1.matches@[j] == e.1);
    }
}

/// Every match of the files can have its description cut.
pub open spec fn configs_describable(cs: Seq<(String, Config)>) -> bool {
    forall|i: int, j: int|
        0 <= i < cs.len() && 0 <= j < cs[i].1.matches@.len() ==> describable(
            #[trigger] cs[i].1.matches@[j],
        )
}

/// The description of a match.
fn describe_match(m: &MatchFile) -> (r: String)
    requires
        describable(*m),
    ensures
        r@ == describe(*m),
{
    let src = match &m.search_label {
        Some(s) => Some(s),
        None => match &m.replace {
            Some(s) => Some(s),
            None => match &m.form {
                Some(s) => Some(s),
                None => None,
            },
        },
    };
    match src {
        Some(s) => {
            let t = trim_chars(&chars_of(s.as_str()));
            let ts = string_of(&t);
            let n = str_byte_len(ts.as_str());
            if n > 80 {
                let k = char_count_for_bytes(&t, 77);
                let mut out = copy_range(&t, 0, k);
                out.push('.');
                out.push('.');
                out.push('.');
                proof {
                    reveal_strlit("...");
                    assert(out@ =~= byte_prefix(t@, 77) + "..."@);
                }
                string_of(&out)
            } else {
                ts
            }
        },
        None => String::new(),
    }
}

/// Whether the description of a match can be cut where it is cut.
pub fn match_describable(m: &MatchFile) -> (b: bool)
    ensures
        b == describable(*m),
{
    let src = match &m.search_label {
        Some(s) => Some(s),
        None => match &m.replace {
            Some(s) => Some(s),
            None => match &m.form {
                Some(s) => Some(s),
                None => None,
            },
        },
    };
    match src {
        Some(s) => {
            let t = trim_chars(&chars_of(s.as_str()));
            let n = str_byte_len(string_of(&t).as_str());
            n <= 80 || boundary_at(&t, 77)
        },
        None => true,
    }
}

/// Whether every match of every file can be described, as
/// `TriggerRecord::from_configs` asks.
pub fn configs_describable_check(configs: &[(String, Config)]) -> (b: bool)
    ensures
        b == configs_describable(configs@),
{
    let mut i: usize = 0;
    while i < configs.len()
        invariant
            i <= configs@.len(),
            forall|a: int, j: int|
                0 <= a < i && 0 <= j < configs@[a].1.matches@.len() ==> describable(
                    #[trigger] configs@[a].1.matches@[j],
                ),
        decreases configs@.len() - i,
    {
        let ms = &configs[i].1.matches;
        let mut j: usize = 0;
        while j < ms.len()
            invariant
                i < configs@.len(),
                *ms == configs@[i as int].1.matches,
                j <= ms@.len(),
                forall|a: int, jj: int|
                    0 <= a < i && 0 <= jj < configs@[a].1.matches@.len() ==> describable(
                        #[trigger] configs@[a].1.matches@[jj],
                    ),
                forall|jj: int| 0 <= jj < j ==> describable(#[trigger] ms@[jj]),
            decreases ms@.len() - j,
        {
            if !match_describable(&ms[j]) {
                assert(!describable(configs@[i as int].1.matches@[j as int]));
                return false;
            }
            j = j + 1;
        }
        assert forall|a: int, jj: int|
            0 <= a < i + 1 && 0 <= jj < configs@[a].1.matches@.len() implies describable(
                #[trigger] configs@[a].1.matches@[jj],
            ) by {
            if a == i {
                assert(ms@[jj] == configs@[a].1.matches@[jj]);
            }
        }
        i = i + 1;
    }
    true
}

/// How often `x` occurs in the list.
fn count_in(l: &Vec<Vec<char>>, x: &Vec<char>) -> (n: usize)
    ensures
        n == count_eq(l@.map_values(|v: Vec<char>| v@), x@),
{
    let ghost lv = l@.map_values(|v: Vec<char>| v@);
    let mut n: usize = 0;
    let mut i: usize = 0;
    assert(lv.take(0) =~= Seq::<Seq<char>>::empty());
    while i < l.len()
        invariant
            lv == l@.map_values(|v: Vec<char>| v@),
            i <= l@.len(),
            n <= i,
            n == count_eq(lv.take(i as int), x@),
        decreases l@.len() - i,
    {
        assert(lv.take(i + 1).drop_last() =~= lv.take(i as int));
        assert(lv.take(i + 1).last() == l@[i as int]@);
        if chars_eq(&l[i], x) {
            n = n + 1;
        }
        i = i + 1;
    }
    assert(lv.take(i as int) =~= lv);
    n
}

/// The records of the triggers of one match.
fn push_match_records(
    records: &mut Vec<TriggerRecord>,
    seen: &mut Vec<Vec<char>>,
    category: &String,
    path: &String,
    m: &MatchFile,
    Ghost(before): Ghost<Seq<((Seq<char>, Seq<char>), MatchFile, Seq<char>)>>,
)
    requires
        describable(*m),
        old(records)@.map_values(|r: TriggerRecord| r@) == records_spec(before),
        old(seen)@.map_values(|v: Vec<char>| v@) == entry_triggers(before),
    ensures
        final(records)@.map_values(|r: TriggerRecord| r@) == records_spec(
            before + trigger_list(*m).map_values(|t: Seq<char>| ((category@, path@), *m, t)),
        ),
        final(seen)@.map_values(|v: Vec<char>| v@) == entry_triggers(
            before + trigger_list(*m).map_values(|t: Seq<char>| ((category@, path@), *m, t)),
        ),
{
    let ghost added = trigger_list(*m).map_values(|t: Seq<char>| ((category@, path@), *m, t));
    let description = describe_match(m);
    let form_match = m.has_form();
    let ts = m.triggers();
    let mut j: usize = 0;
    assert(before + added.take(0) =~= before);
    while j < ts.len()
        invariant
            ts@.len() == trigger_list(*m).len(),
            forall|q: int| 0 <= q < ts@.len() ==> ts@[q]@ == trigger_list(*m)[q],
            added == trigger_list(*m).map_values(|t: Seq<char>| ((category@, path@), *m, t)),
            description@ == describe(*m),
            form_match == (m.form is Some),
            j <= ts@.len(),
            records@.map_values(|r: TriggerRecord| r@) == records_spec(before + added.take(j as int)),
            seen@.map_values(|v: Vec<char>| v@) == entry_triggers(before + added.take(j as int)),
        decreases ts@.len() - j,
    {
        let ghost es = before + added.take(j as int);
        let ghost es2 = before + added.take(j + 1);
        assert(es2 =~= es.push(((category@, path@), *m, trigger_list(*m)[j as int])));
        let t = chars_of(ts[j]);
        let prior = count_in(seen, &t);
        let mut shown = copy_range(&t, 0, t.len());
        if prior > 0 {
            shown.push(' ');
            shown.push('[');
            let digits = decimal_chars(prior);
            let mut k: usize = 0;
            let ghost s0 = shown@;
            while k < digits.len()
                invariant
                    k <= digits@.len(),
                    shown@ == s0 + digits@.take(k as int),
                decreases digits@.len() - k,
            {
                shown.push(digits[k]);
                k = k + 1;
                assert(shown@ =~= s0 + digits@.take(k as int));
            }
            assert(digits@.take(k as int) =~= digits@);
            shown.push(']');
            assert(shown@ =~= display_trigger(t@, prior as nat));
        } else {
            assert(shown@ =~= display_trigger(t@, prior as nat));
        }
        let tags = extract_tags(ts[j], description.as_str());
        let record = TriggerRecord {
            trigger: string_of(&shown),
            description: description.clone(),
            category: category.clone(),
            trigger_type: if form_match {
                String::from_str("form")
            } else {
                String::from_str("text")
            },
            tags,
            source_file: path.clone(),
        };
        proof {
            assert(es2.take(es.len() as int) =~= es);
            assert(entry_triggers(es) =~= seen@.map_values(|v: Vec<char>| v@));
        }
        let ghost rs0 = records@;
        let ghost sv0 = seen@;
        let ghost rec_view = record@;
        let ghost rec = record;
        records.push(record);
        seen.push(t);
        proof {
            let n = es.len() as int;
            let t_j = trigger_list(*m)[j as int];
            assert(es2[n] == ((category@, path@), *m, t_j));
            assert(t@ == t_j);
            assert(prior as nat == count_eq(entry_triggers(es), t_j));
            assert(rec_view == record_for((category@, path@), *m, t_j, prior as nat));
            assert(rs0.map_values(|r: TriggerRecord| r@).len() == n);
            assert(records@ == rs0.push(rec));
            let rv = records@.map_values(|r: TriggerRecord| r@);
            let want = records_spec(es2);
            assert(rv.len() == es2.len());
            assert forall|k: int| 0 <= k < es2.len() implies rv[k] == want[k] by {
                if k < n {
                    assert(es2.take(k) =~= es.take(k));
                    assert(es2[k] == es[k]);
                    assert(rs0.map_values(|r: TriggerRecord| r@)[k] == records_spec(es)[k]);
                    assert(records@[k] == rs0[k]);
                } else {
                    assert(records@[k] == rec);
                }
            }
            assert(rv =~= want);
            let sv = seen@.map_values(|v: Vec<char>| v@);
            assert forall|k: int| 0 <= k < es2.len() implies sv[k] == entry_triggers(es2)[k] by {
                if k < n {
                    assert(sv[k] == sv0[k]@);
                    assert(sv0.map_values(|v: Vec<char>| v@)[k] == entry_triggers(es)[k]);
                }
            }
            assert(sv =~= entry_triggers(es2));
        }
        j = j + 1;
    }
    assert(added.take(j as int) =~= added);
}

/// The name of the file a path leads to: its last part between `/`s that
/// is neither empty nor `.`; none when there is no such part or the last
/// one is `..`.
pub open spec fn path_name(path: Seq<char>) -> Option<Seq<char>> {
    let named = split_by(path, CharClass::PathSep).filter(
        |p: Seq<char>| p.len() > 0 && p != seq!['.'],
    );
    if named.len() == 0 || named.last() == seq!['.', '.'] {
        None
    } else {
        Some(named.last())
    }
}

/// The index of the last `.` of `n`, or -1 when it has none.
pub open spec fn last_dot(n: Seq<char>) -> int
    decreases n.len(),
{
    if n.len() == 0 {
        -1
    } else if n.last() == '.' {
        n.len() - 1
    } else {
        last_dot(n.drop_last())
    }
}

/// The stem of a file path: the file's name without its last `.` and what
/// follows, unless that `.` starts the name or there is none.
pub open spec fn stem_of(path: Seq<char>) -> Option<Seq<char>> {
    match path_name(path) {
        None => None,
        Some(n) => Some(if last_dot(n) <= 0 {
            n
        } else {
            n.take(last_dot(n))
        }),
    }
}

/// A path that every platform splits alike: it holds no `\` and no `:`.
pub open spec fn plain_path(path: Seq<char>) -> bool {
    !path.contains('\\') && !path.contains(':')
}

/// The stem of a file path, as `Path::file_stem` gives it.
///
/// Trusted: calls `std::path::Path::file_stem` on the path and takes the
/// stem as a string.  A stem is a part of the path; for a path without `\`
/// and `:`, which every platform splits only at `/`, it is `stem_of` of the
/// path.  How other paths split depends on the platform, and that is left
/// unsaid.
#[verifier::external_body]
fn file_stem(path: &str) -> (r: Option<String>)
    ensures
        r matches Some(s) ==> contains(path@, s@),
        plain_path(path@) ==> opt_view(r) == stem_of(path@),
{
    std::path::Path::new(path).file_stem().and_then(|s| s.to_str()).map(String::from)
}

impl TriggerRecord {
    /// The database records of every trigger of every match of the files,
    /// given the stem of each file's name, in order.  A file's records carry
    /// its stem as category (`unknown` when it has none) and its path as
    /// source; a repeated trigger is listed with ` [n]` after it; the
    /// description and the tags come from the match.
    pub fn from_sources(configs: &[(String, Config)], stems: &[Option<String>]) -> (r: Vec<
        TriggerRecord,
    >)
        requires
            stems@.len() == configs@.len(),
            configs_describable(configs@),
        ensures
            r@.map_values(|x: TriggerRecord| x@) == records_spec(
                trigger_entries(configs@, stems_view(stems@)),
            ),
    {
        let ghost sv = stems_view(stems@);
        let mut records: Vec<TriggerRecord> = Vec::new();
        let mut seen: Vec<Vec<char>> = Vec::new();
        let mut i: usize = 0;
        assert(configs@.take(0) =~= Seq::<(String, Config)>::empty());
        assert(records@.map_values(|x: TriggerRecord| x@) =~= records_spec(trigger_entries(configs@.take(0), sv)));
        assert(seen@.map_values(|v: Vec<char>| v@) =~= entry_triggers(trigger_entries(configs@.take(0), sv)));
        while i < configs.len()
            invariant
                sv == stems_view(stems@),
                stems@.len() == configs@.len(),
                configs_describable(configs@),
                i <= configs@.len(),
                records@.map_values(|x: TriggerRecord| x@) == records_spec(trigger_entries(configs@.take(i as int), sv)),
                seen@.map_values(|v: Vec<char>| v@) == entry_triggers(trigger_entries(configs@.take(i as int), sv)),
            decreases configs@.len() - i,
        {
            let (path, config) = &configs[i];
            let category = match &stems[i] {
                Some(s) => s.clone(),
                None => String::from_str("unknown"),
            };
            let ghost src = (category@, path@);
            let ghost base = trigger_entries(configs@.take(i as int), sv);
            let ghost ms = config.matches@;
            let mut j: usize = 0;
            assert(ms.take(0) =~= Seq::<MatchFile>::empty());
            assert(base + match_entries(src, ms.take(0)) =~= base);
            while j < config.matches.len()
                invariant
                    configs_describable(configs@),
                    configs@[i as int].1 == *config,
                    i < configs@.len(),
                    ms == config.matches@,
                    src == (category@, path@),
                    j <= ms.len(),
                    records@.map_values(|x: TriggerRecord| x@) == records_spec(base + match_entries(src, ms.take(j as int))),
                    seen@.map_values(|v: Vec<char>| v@) == entry_triggers(base + match_entries(src, ms.take(j as int))),
                decreases ms.len() - j,
            {
                assert(ms.take(j + 1).drop_last() =~= ms.take(j as int));
                assert(ms.take(j + 1).last() == ms[j as int]);
                assert(describable(configs@[i as int].1.matches@[j as int]));
                push_match_records(
                    &mut records,
                    &mut seen,
                    &category,
                    path,
                    &config.matches[j],
                    Ghost(base + match_entries(src, ms.take(j as int))),
                );
                assert(base + match_entries(src, ms.take(j + 1)) =~= base + match_entries(src, ms.take(j as int))
                    + trigger_list(ms[j as int]).map_values(|t: Seq<char>| (src, ms[j as int], t)));
                j = j + 1;
            }
            proof {
                assert(ms.take(j as int) =~= ms);
                assert(configs@.take(i + 1).drop_last() =~= configs@.take(i as int));
                assert(configs@.take(i + 1).last() == configs@[i as int]);
                assert(category@ == source_name(sv[i as int]));
            }
            i = i + 1;
        }
        assert(configs@.take(i as int) =~= configs@);
        records
    }

    /// The database records of every trigger of every match of the files,
    /// each file given by its path, in order: as `from_sources` gives them
    /// for the stems of the paths' file names.
    pub fn from_configs(configs: &[(String, Config)]) -> (r: Vec<TriggerRecord>)
        requires
            configs_describable(configs@),
        ensures
            exists|stems: Seq<Option<Seq<char>>>|
                {
                    &&& stems.len() == configs@.len()
                    &&& forall|i: int|
                        0 <= i < stems.len() ==> (#[trigger] stems[i] matches Some(s) ==> contains(
                            configs@[i].0@,
                            s,
                        ))
                    &&& forall|i: int|
                        0 <= i < stems.len() && plain_path(configs@[i].0@) ==> #[trigger] stems[i]
                            == stem_of(configs@[i].0@)
                    &&& r@.map_values(|x: TriggerRecord| x@) == records_spec(trigger_entries(configs@, stems))
                },
    {
        let mut stems: Vec<Option<String>> = Vec::new();
        let mut i: usize = 0;
        while i < configs.len()
            invariant
                i <= configs@.len(),
                stems@.len() == i,
                forall|k: int|
                    0 <= k < i ==> (#[trigger] stems@[k] matches Some(s) ==> contains(configs@[k].0@, s@)),
                forall|k: int|
                    0 <= k < i && plain_path(configs@[k].0@) ==> opt_view(#[trigger] stems@[k])
                        == stem_of(configs@[k].0@),
            decreases configs@.len() - i,
        {
            stems.push(file_stem(configs[i].0.as_str()));
            i = i + 1;
        }
        let r = Self::from_sources(configs, &stems);
        assert forall|k: int| 0 <= k < stems@.len() implies (#[trigger] stems_view(stems@)[k] matches Some(s)
            ==> contains(configs@[k].0@, s)) by {
            assert(stems_view(stems@)[k] == opt_view(stems@[k]));
        }
        assert forall|k: int| 0 <= k < stems@.len() && plain_path(configs@[k].0@) implies #[trigger] stems_view(
            stems@,
        )[k] == stem_of(configs@[k].0@) by {
            assert(stems_view(stems@)[k] == opt_view(stems@[k]));
        }
        r
    }
}

/// The records by their characters, in order.
pub open spec fn record_specs(rs: Seq<TriggerRecord>) -> Seq<RecordSpec> {
    rs.map_values(|r: TriggerRecord| r@)
}

/// A record with its searched fields (trigger, description, category and
/// tags) lowercased.
pub open spec fn lowered(r: RecordSpec) -> RecordSpec {
    RecordSpec {
        trigger: lowercase(r.trigger),
        description: lowercase(r.description),
        category: lowercase(r.category),
        trigger_type: r.trigger_type,
        tags: lowercase(r.tags),
        source_file: r.source_file,
    }
}

/// A lowercase query occurs in the trigger, description, category or tags
/// of a lowered record.
pub open spec fn holds_query(l: RecordSpec, q: Seq<char>) -> bool {
    ||| contains(l.trigger, q)
    ||| contains(l.description, q)
    ||| contains(l.category, q)
    ||| contains(l.tags, q)
}

/// The records, each given beside its lowered form, that a lowercase query
/// selects, in order.
pub open spec fn select_records(pairs: Seq<(RecordSpec, RecordSpec)>, q: Seq<char>) -> Seq<RecordSpec>
    decreases pairs.len(),
{
    if pairs.len() == 0 {
        seq![]
    } else {
        let rest = select_records(pairs.drop_last(), q);
        if holds_query(pairs.last().1, q) {
            rest.push(pairs.last().0)
        } else {
            rest
        }
    }
}

/// The records that answer a search for `query`: those in whose trigger,
/// description, category or tags, each lowercased, the lowercased query
/// occurs, in their order.
pub open spec fn search_spec(records: Seq<RecordSpec>, query: Seq<char>) -> Seq<RecordSpec> {
    select_records(records.map_values(|r: RecordSpec| (r, lowered(r))), lowercase(query))
}

/// What a selection keeps: the record of every pair whose lowered form
/// holds the query, and nothing but such records.
proof fn lemma_select_records(pairs: Seq<(RecordSpec, RecordSpec)>, q: Seq<char>)
    ensures
        forall|i: int|
            0 <= i < pairs.len() && holds_query(#[trigger] pairs[i].1, q) ==> select_records(pairs, q).contains(
                pairs[i].0,
            ),
        forall|k: int|
            #![trigger select_records(pairs, q)[k]]
            0 <= k < select_records(pairs, q).len() ==> exists|i: int|
                #![trigger pairs[i]]
                0 <= i < pairs.len() && select_records(pairs, q)[k] == pairs[i].0 && holds_query(
                    pairs[i].1,
                    q,
                ),
    decreases pairs.len(),
{
    if pairs.len() > 0 {
        let init = pairs.drop_last();
        lemma_select_records(init, q);
        let rest = select_records(init, q);
        let sel = select_records(pairs, q);
        assert forall|i: int| 0 <= i < pairs.len() && holds_query(#[trigger] pairs[i].1, q) implies sel.contains(
            pairs[i].0,
        ) by {
            if i < pairs.len() - 1 {
                assert(init[i] == pairs[i]);
                let w = choose|w: int| 0 <= w < rest.len() && rest[w] == init[i].0;
                assert(sel[w] == pairs[i].0);
            } else {
                assert(sel[sel.len() - 1] == pairs[i].0);
            }
        }
        assert forall|k: int| #![trigger sel[k]] 0 <= k < sel.len() implies exists|i: int|
            #![trigger pairs[i]]
            0 <= i < pairs.len() && sel[k] == pairs[i].0 && holds_query(pairs[i].1, q) by {
            if k < rest.len() {
                assert(rest[k] == rest[k]);
                let i = choose|i: int| #![trigger init[i]] 0 <= i < init.len() && rest[k] == init[i].0 && holds_query(init[i].1, q);
                assert(init[i] == pairs[i]);
                assert(sel[k] == rest[k]);
            } else {
                assert(sel[k] == pairs[pairs.len() - 1].0);
            }
        }
    }
}

/// The lowercased query occurs in the lowercased trigger, description,
/// category or tags of a record.
pub open spec fn hits(r: RecordSpec, query: Seq<char>) -> bool {
    ||| contains(lowercase(r.trigger), lowercase(query))
    ||| contains(lowercase(r.description), lowercase(query))
    ||| contains(lowercase(r.category), lowercase(query))
    ||| contains(lowercase(r.tags), lowercase(query))
}

/// A search finds every hit and nothing else: a record is in the answer
/// whenever the lowercased query occurs in its lowercased trigger,
/// description, category or tags, and every record of the answer is a
/// record of the database in which it so occurs.
pub proof fn law_search_finds_every_hit(records: Seq<RecordSpec>, query: Seq<char>)
    ensures
        forall|i: int|
            0 <= i < records.len() && hits(#[trigger] records[i], query) ==> search_spec(records, query).contains(
                records[i],
            ),
        forall|k: int|
            0 <= k < search_spec(records, query).len() ==> records.contains(#[trigger] search_spec(records, query)[k])
                && hits(search_spec(records, query)[k], query),
{
    let pairs = records.map_values(|r: RecordSpec| (r, lowered(r)));
    let q = lowercase(query);
    lemma_select_records(pairs, q);
    let res = select_records(pairs, q);
    assert(search_spec(records, query) == res);
    assert forall|i: int| 0 <= i < records.len() && hits(#[trigger] records[i], query) implies res.contains(
        records[i],
    ) by {
        assert(pairs[i] == (records[i], lowered(records[i])));
        assert(holds_query(pairs[i].1, q));
    }
    assert forall|k: int| 0 <= k < res.len() implies records.contains(#[trigger] res[k]) && hits(res[k], query) by {
        let i = choose|i: int|
            #![trigger pairs[i]]
            0 <= i < pairs.len() && res[k] == pairs[i].0 && holds_query(pairs[i].1, q);
        assert(pairs[i] == (records[i], lowered(records[i])));
        assert(records[i] == res[k]);
    }
}

/// Record pairs by their characters.
pub open spec fn record_pairs(v: Seq<(TriggerRecord, TriggerRecord)>) -> Seq<(RecordSpec, RecordSpec)> {
    v.map_values(|p: (TriggerRecord, TriggerRecord)| (p.0@, p.1@))
}

/// The records that a lowercase query selects, each record given beside
/// its lowered form, in order.
pub fn search_lowered(pairs: &[(TriggerRecord, TriggerRecord)], query: &str) -> (r: Vec<TriggerRecord>)
    ensures
        record_specs(r@) == select_records(record_pairs(pairs@), query@),
{
    let ghost pv = record_pairs(pairs@);
    let q = chars_of(query);
    let mut found: Vec<TriggerRecord> = Vec::new();
    let mut i: usize = 0;
    assert(pv.take(0) =~= Seq::<(RecordSpec, RecordSpec)>::empty());
    while i < pairs.len()
        invariant
            pv == record_pairs(pairs@),
            q@ == query@,
            i <= pairs@.len(),
            record_specs(found@) == select_records(pv.take(i as int), query@),
        decreases pairs@.len() - i,
    {
        assert(pv.take(i + 1).drop_last() =~= pv.take(i as int));
        assert(pv.take(i + 1).last() == pv[i as int]);
        let (r, l) = &pairs[i];
        let hit = contains_chars(&chars_of(l.trigger.as_str()), &q) || contains_chars(
            &chars_of(l.description.as_str()),
            &q,
        ) || contains_chars(&chars_of(l.category.as_str()), &q) || contains_chars(
            &chars_of(l.tags.as_str()),
            &q,
        );
        if hit {
            let ghost before = found@;
            found.push(r.clone());
            assert(record_specs(found@) =~= record_specs(before).push(r@));
        }
        i = i + 1;
    }
    assert(pv.take(i as int) =~= pv);
    found
}

/// The records that answer a search for `query`, case-insensitively, in
/// their order.
pub fn search_records(records: &[TriggerRecord], query: &str) -> (r: Vec<TriggerRecord>)
    ensures
        record_specs(r@) == search_spec(record_specs(records@), query@),
{
    let ghost all = record_specs(records@);
    let ghost want = all.map_values(|x: RecordSpec| (x, lowered(x)));
    let mut pairs: Vec<(TriggerRecord, TriggerRecord)> = Vec::new();
    let mut i: usize = 0;
    while i < records.len()
        invariant
            i <= records@.len(),
            all == record_specs(records@),
            want == all.map_values(|x: RecordSpec| (x, lowered(x))),
            record_pairs(pairs@) == want.take(i as int),
        decreases records@.len() - i,
    {
        let r = &records[i];
        let l = TriggerRecord {
            trigger: to_lowercase(r.trigger.as_str()),
            description: to_lowercase(r.description.as_str()),
            category: to_lowercase(r.category.as_str()),
            trigger_type: r.trigger_type.clone(),
            tags: to_lowercase(r.tags.as_str()),
            source_file: r.source_file.clone(),
        };
        assert(all[i as int] == r@);
        assert(l@ == lowered(r@));
        let ghost before = record_pairs(pairs@);
        pairs.push((r.clone(), l));
        assert(record_pairs(pairs@) =~= before.push(want[i as int]));
        assert(want.take(i + 1) =~= want.take(i as int).push(want[i as int]));
        i = i + 1;
    }
    assert(want.take(i as int) =~= want);
    let q = to_lowercase(query);
    search_lowered(&pairs, q.as_str())
}

/// The index of the first record with trigger `trigger`, if any.
pub fn find_record(records: &[TriggerRecord], trigger: &str) -> (r: Option<usize>)
    ensures
        match r {
            Some(i) => i < records@.len() && records@[i as int].trigger@ == trigger@
                && forall|j: int| 0 <= j < i ==> records@[j].trigger@ != trigger@,
            None => forall|j: int| 0 <= j < records@.len() ==> records@[j].trigger@ != trigger@,
        },
{
    let t = chars_of(trigger);
    let mut i: usize = 0;
    while i < records.len()
        invariant
            i <= records@.len(),
            t@ == trigger@,
            forall|j: int| 0 <= j < i ==> records@[j].trigger@ != trigger@,
        decreases records@.len() - i,
    {
        if chars_eq(&chars_of(records[i].trigger.as_str()), &t) {
            return Some(i);
        }
        i = i + 1;
    }
    None
}

} // verus!
