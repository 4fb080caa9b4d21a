//! What the command-line expander decides around a match: where the match
//! files are, the values a form falls back to, how form values and
//! resolved variables are bound for a template, how long text is cut for
//! display, and how a generated command is tidied.
use vstd::prelude::*;
use crate::form::{FieldSpec, FieldType, FormField, FormResult};
use crate::config::VariableDef;
use crate::strmap::{assoc_get, assoc_insert, distinct_keys, key_index, law_get_after_insert, law_insert_keeps_others, lemma_get_map_vals, lemma_insert_map_vals, map_vals, StringMap};
use crate::text::{
    byte_len, chars_eq, chars_of, class_has, concat_chars, contains, contains_chars, copy_range, has_prefix, is_ws,
    find, in_class, lemma_find_from_range, occurs_at, starts_with, str_byte_len, string_of, trim,
    trim_chars, trim_end_by, trim_start_by, utf8_width, CharClass,
};

verus! {

/// The state of the command tidier: the quote it is inside, whether the
/// previous character was a backslash, whether it has just written a space.
pub struct TidyState {
    pub quote: Option<char>,
    pub escaped: bool,
    pub previous_space: bool,
}

/// One character through the tidier: what it writes and its next state.
/// Inside quotes and after a backslash every character is kept; outside
/// them a run of whitespace becomes one space.
pub open spec fn tidy_step(st: TidyState, c: char) -> (TidyState, Seq<char>) {
    if st.escaped {
        (TidyState { quote: st.quote, escaped: false, previous_space: false }, seq![c])
    } else if c == '\\' {
        (TidyState { quote: st.quote, escaped: true, previous_space: false }, seq![c])
    } else if st.quote is Some {
        (
            TidyState {
                quote: if c == st.quote.unwrap() {
                    None
                } else {
                    st.quote
                },
                escaped: false,
                previous_space: false,
            },
            seq![c],
        )
    } else if c == '\'' || c == '"' {
        (TidyState { quote: Some(c), escaped: false, previous_space: false }, seq![c])
    } else if is_ws(c) {
        if st.previous_space {
            (st, seq![])
        } else {
            (TidyState { quote: None, escaped: false, previous_space: true }, seq![' '])
        }
    } else {
        (TidyState { quote: None, escaped: false, previous_space: false }, seq![c])
    }
}

/// The tidier run over `s` from its initial state: its final state and
/// what it wrote.
pub open spec fn tidy_run(s: Seq<char>) -> (TidyState, Seq<char>)
    decreases s.len(),
{
    if s.len() == 0 {
        (TidyState { quote: None, escaped: false, previous_space: false }, seq![])
    } else {
        let (st, out) = tidy_run(s.drop_last());
        let (st2, o) = tidy_step(st, s.last());
        (st2, out + o)
    }
}

/// The tidied form of a generated command: a single-line `find ` command
/// (after trimming) has its unquoted whitespace runs collapsed and its ends
/// trimmed; any other output is kept as it is.
pub open spec fn normalize_spec(output: Seq<char>) -> Seq<char> {
    let t = trim(output);
    if !starts_with(t, "find "@) || contains(t, seq!['\n']) {
        output
    } else {
        tidy_run(t).1
    }
}

/// Each step writes what the tidier, from the state the step starts in,
/// writes again for that output: nothing, or the one character written.
proof fn lemma_tidy_step_stable(st: TidyState, c: char)
    ensures
        tidy_step(st, c).1.len() <= 1,
        tidy_step(st, c).1.len() == 0 ==> tidy_step(st, c).0 == st,
        tidy_step(st, c).1.len() == 1 ==> tidy_step(st, tidy_step(st, c).1[0]) == tidy_step(st, c),
        !is_ws(c) ==> tidy_step(st, c).1 == seq![c],
        forall|k: int| 0 <= k < tidy_step(st, c).1.len() ==> #[trigger] tidy_step(st, c).1[k] == c
            || tidy_step(st, c).1[k] == ' ',
{
    assert(is_ws(' '));
}

/// Run over its own output, the tidier writes that output again.
proof fn lemma_tidy_stable(t: Seq<char>)
    ensures
        tidy_run(tidy_run(t).1) == tidy_run(t),
    decreases t.len(),
{
    if t.len() > 0 {
        let init = t.drop_last();
        lemma_tidy_stable(init);
        let st = tidy_run(init).0;
        let out = tidy_run(init).1;
        let o = tidy_step(st, t.last()).1;
        lemma_tidy_step_stable(st, t.last());
        if o.len() == 0 {
            assert(out + o =~= out);
        } else {
            assert(o =~= seq![o[0]]);
            assert((out + o).drop_last() =~= out);
            assert((out + o).last() == o[0]);
        }
    }
}

/// What the tidier wrote for a prefix starts what it writes for the whole.
proof fn lemma_tidy_prefix(t: Seq<char>, k: int)
    requires
        0 <= k <= t.len(),
    ensures
        tidy_run(t.take(k)).1.len() <= tidy_run(t).1.len(),
        tidy_run(t).1.take(tidy_run(t.take(k)).1.len() as int) == tidy_run(t.take(k)).1,
    decreases t.len(),
{
    if k == t.len() {
        assert(t.take(k) =~= t);
    } else {
        let init = t.drop_last();
        lemma_tidy_prefix(init, k);
        assert(init.take(k) =~= t.take(k));
        let p = tidy_run(t.take(k)).1;
        let a = tidy_run(init).1;
        let o = tidy_step(tidy_run(init).0, t.last()).1;
        assert((a + o).take(p.len() as int) =~= a.take(p.len() as int));
    }
}

/// The tidier writes a line feed only where the text has one.
proof fn lemma_tidy_no_newline(t: Seq<char>)
    requires
        forall|j: int| 0 <= j < t.len() ==> t[j] != '\n',
    ensures
        forall|k: int| 0 <= k < tidy_run(t).1.len() ==> tidy_run(t).1[k] != '\n',
    decreases t.len(),
{
    if t.len() > 0 {
        let init = t.drop_last();
        lemma_tidy_no_newline(init);
        let st = tidy_run(init).0;
        let out = tidy_run(init).1;
        let o = tidy_step(st, t.last()).1;
        lemma_tidy_step_stable(st, t.last());
        assert forall|k: int| 0 <= k < (out + o).len() implies (out + o)[k] != '\n' by {
            if k >= out.len() {
                assert(o[k - out.len()] == t.last() || o[k - out.len()] == ' ');
            }
        }
    }
}

/// Text trimmed at its end does not end in its class.
proof fn lemma_trim_end_last(s: Seq<char>, cls: CharClass)
    ensures
        trim_end_by(s, cls).len() > 0 ==> !in_class(cls, trim_end_by(s, cls).last()),
        trim_end_by(s, cls).len() <= s.len(),
        trim_end_by(s, cls).len() > 0 ==> trim_end_by(s, cls)[0] == s[0],
    decreases s.len(),
{
    if s.len() > 0 && in_class(cls, s.last()) {
        lemma_trim_end_last(s.drop_last(), cls);
    }
}

/// `contains` of a one-character pattern is membership.
proof fn lemma_contains_char(s: Seq<char>, c: char)
    ensures
        contains(s, seq![c]) <==> exists|j: int| 0 <= j < s.len() && s[j] == c,
{
    lemma_find_from_range(s, seq![c], 0);
    if contains(s, seq![c]) {
        let i = find(s, seq![c])->0 as int;
        assert(s.subrange(i, i + 1)[0] == s[i]);
    } else {
        assert forall|j: int| 0 <= j < s.len() implies s[j] != c by {
            if s[j] == c {
                assert(s.subrange(j, j + 1) =~= seq![c]);
                assert(occurs_at(s, seq![c], j));
            }
        }
    }
}

/// Tidying a command twice changes nothing more than tidying it once.
pub proof fn law_tidy_idempotent(output: Seq<char>)
    ensures
        normalize_spec(normalize_spec(output)) == normalize_spec(output),
{
    let t = trim(output);
    reveal_strlit("find ");
    if starts_with(t, "find "@) && !contains(t, seq!['\n']) {
        let r = tidy_run(t).1;
        // The output starts with `find `.
        lemma_tidy_prefix(t, 5);
        assert(t.take(5) =~= seq!['f', 'i', 'n', 'd', ' ']);
        assert(tidy_run(seq!['f', 'i', 'n', 'd', ' ']).1 =~= seq!['f', 'i', 'n', 'd', ' ']) by {
            reveal_with_fuel(tidy_run, 6);
            assert(seq!['f', 'i', 'n', 'd', ' '].drop_last() =~= seq!['f', 'i', 'n', 'd']);
            assert(seq!['f', 'i', 'n', 'd'].drop_last() =~= seq!['f', 'i', 'n']);
            assert(seq!['f', 'i', 'n'].drop_last() =~= seq!['f', 'i']);
            assert(seq!['f', 'i'].drop_last() =~= seq!['f']);
            assert(seq!['f'].drop_last() =~= Seq::<char>::empty());
            assert(is_ws(' '));
        }
        assert(r.take(5) =~= "find "@);
        assert(starts_with(r, "find "@));
        // It holds no line feed.
        lemma_contains_char(t, '\n');
        lemma_tidy_no_newline(t);
        lemma_contains_char(r, '\n');
        // It is its own trim.
        lemma_trim_end_last(trim_start_by(output, CharClass::Whitespace), CharClass::Whitespace);
        assert(t.len() > 0);
        let init = t.drop_last();
        lemma_tidy_step_stable(tidy_run(init).0, t.last());
        assert(r.last() == t.last());
        assert(r[0] == 'f');
        assert(trim_start_by(r, CharClass::Whitespace) == r);
        assert(trim_end_by(r, CharClass::Whitespace) == r);
        assert(trim(r) == r);
        lemma_tidy_stable(t);
    }
}

/// Tidies a generated command: a single-line `find` command has each run
/// of whitespace outside quotes collapsed to one space.
pub fn normalize_command_output(output: &str) -> (r: String)
    ensures
        r@ == normalize_spec(output@),
{
    let all = chars_of(output);
    let trimmed = trim_chars(&all);
    let find_word = chars_of("find ");
    let newline = vec!['\n'];
    assert(newline@ =~= seq!['\n']);
    if !has_prefix(&trimmed, &find_word) || contains_chars(&trimmed, &newline) {
        return string_of(&all);
    }
    let mut normalized: Vec<char> = Vec::new();
    let mut quote: Option<char> = None;
    let mut escaped = false;
    let mut previous_space = false;
    let mut i: usize = 0;
    assert(trimmed@.take(0) =~= Seq::<char>::empty());
    while i < trimmed.len()
        invariant
            i <= trimmed@.len(),
            tidy_run(trimmed@.take(i as int)) == (
                TidyState { quote: quote, escaped: escaped, previous_space: previous_space },
                normalized@,
            ),
        decreases trimmed@.len() - i,
    {
        let ch = trimmed[i];
        assert(trimmed@.take(i + 1).drop_last() =~= trimmed@.take(i as int));
        assert(trimmed@.take(i + 1).last() == ch);
        let ghost before = normalized@;
        if escaped {
            normalized.push(ch);
            escaped = false;
            previous_space = false;
        } else if ch == '\\' {
            normalized.push(ch);
            escaped = true;
            previous_space = false;
        } else if let Some(q) = quote {
            normalized.push(ch);
            if ch == q {
                quote = None;
            }
            previous_space = false;
        } else if ch == '\'' || ch == '"' {
            quote = Some(ch);
            normalized.push(ch);
            previous_space = false;
        } else if class_has(CharClass::Whitespace, ch) {
            if !previous_space {
                normalized.push(' ');
                previous_space = true;
            }
        } else {
            normalized.push(ch);
            previous_space = false;
        }
        proof {
            let (st2, o) = tidy_step(
                tidy_run(trimmed@.take(i as int)).0,
                ch,
            );
            assert(normalized@ =~= before + o);
        }
        i = i + 1;
    }
    assert(trimmed@.take(i as int) =~= trimmed@);
    string_of(&normalized)
}

/// What a checkbox shows when it has no default.
pub open spec fn unchecked() -> Seq<char> {
    "false"@
}

/// The value a field falls back to when the form cannot be shown: a
/// checkbox's default or `false`; a default; for a dependent field, the
/// first option for the parent's value so far; else the first option, the
/// placeholder, or nothing.
pub open spec fn fallback_value(f: FieldSpec, acc: Seq<(Seq<char>, Seq<char>)>) -> Seq<char> {
    if f.field_type == FieldType::Checkbox {
        match f.default {
            Some(d) => d,
            None => unchecked(),
        }
    } else if f.default is Some {
        f.default.unwrap()
    } else if f.depends_on is Some {
        match assoc_get(acc, f.depends_on.unwrap()) {
            Some(parent) => match f.depends_map {
                Some(m) => match assoc_get(m, parent) {
                    Some(items) => if items.len() > 0 {
                        items[0]
                    } else {
                        seq![]
                    },
                    None => seq![],
                },
                None => seq![],
            },
            None => seq![],
        }
    } else {
        match f.values {
            Some(vs) => if vs.len() > 0 {
                vs[0]
            } else {
                match f.placeholder {
                    Some(p) => p,
                    None => seq![],
                }
            },
            None => match f.placeholder {
                Some(p) => p,
                None => seq![],
            },
        }
    }
}

/// The fallback values of the fields, each bound to its field's name in
/// field order, a later field of the same name replacing the earlier value.
pub open spec fn fallback_values(fields: Seq<FieldSpec>) -> Seq<(Seq<char>, Seq<char>)>
    decreases fields.len(),
{
    if fields.len() == 0 {
        seq![]
    } else {
        let acc = fallback_values(fields.drop_last());
        assoc_insert(acc, fields.last().name, fallback_value(fields.last(), acc))
    }
}

/// Every field of a form that cannot be shown still gets a value.
pub proof fn law_fallback_covers_fields(fields: Seq<FieldSpec>)
    ensures
        forall|j: int| 0 <= j < fields.len() ==> assoc_get(fallback_values(fields), #[trigger] fields[j].name) is Some,
    decreases fields.len(),
{
    if fields.len() > 0 {
        let init = fields.drop_last();
        law_fallback_covers_fields(init);
        let acc = fallback_values(init);
        let f = fields.last();
        let v = fallback_value(f, acc);
        law_get_after_insert(acc, f.name, v);
        assert forall|j: int| 0 <= j < fields.len() implies assoc_get(fallback_values(fields), #[trigger] fields[j].name) is Some by {
            if fields[j].name != f.name {
                assert(j < fields.len() - 1);
                assert(fields[j] == init[j]);
                law_insert_keeps_others(acc, f.name, v, fields[j].name);
            }
        }
    }
}

/// A field falls back to its default whenever it has one, a checkbox as
/// much as any other field; a checkbox without a default falls back to
/// `false`.  This is the value found under the field's name when no later
/// field has the same name.
pub proof fn law_fallback_prefers_default(fields: Seq<FieldSpec>, j: int)
    requires
        0 <= j < fields.len(),
        forall|q: int| j < q < fields.len() ==> #[trigger] fields[q].name != fields[j].name,
    ensures
        fields[j].default matches Some(d) ==> assoc_get(fallback_values(fields), fields[j].name) == Some(d),
        fields[j].field_type == FieldType::Checkbox && fields[j].default is None ==> assoc_get(
            fallback_values(fields),
            fields[j].name,
        ) == Some("false"@),
    decreases fields.len(),
{
    let init = fields.drop_last();
    let acc = fallback_values(init);
    let f = fields.last();
    let v = fallback_value(f, acc);
    if j == fields.len() - 1 {
        law_get_after_insert(acc, f.name, v);
    } else {
        assert forall|q: int| j < q < init.len() implies #[trigger] init[q].name != init[j].name by {
            assert(init[q] == fields[q]);
        }
        law_fallback_prefers_default(init, j);
        assert(init[j] == fields[j]);
        law_insert_keeps_others(acc, f.name, v, fields[j].name);
    }
}

/// A field without a default that depends on no other field falls back to
/// the first of its values, else to its placeholder, else to nothing.  This
/// is the value found under the field's name when no later field has the
/// same name.
pub proof fn law_fallback_without_default(fields: Seq<FieldSpec>, j: int)
    requires
        0 <= j < fields.len(),
        forall|q: int| j < q < fields.len() ==> #[trigger] fields[q].name != fields[j].name,
        fields[j].field_type != FieldType::Checkbox,
        fields[j].default is None,
        fields[j].depends_on is None,
    ensures
        fields[j].values is Some && fields[j].values.unwrap().len() > 0 ==> assoc_get(
            fallback_values(fields),
            fields[j].name,
        ) == Some(fields[j].values.unwrap()[0]),
        (fields[j].values is None || fields[j].values.unwrap().len() == 0) && fields[j].placeholder is Some
            ==> assoc_get(fallback_values(fields), fields[j].name) == Some(fields[j].placeholder.unwrap()),
        (fields[j].values is None || fields[j].values.unwrap().len() == 0) && fields[j].placeholder is None
            ==> assoc_get(fallback_values(fields), fields[j].name) == Some(Seq::<char>::empty()),
    decreases fields.len(),
{
    let init = fields.drop_last();
    let acc = fallback_values(init);
    let f = fields.last();
    let v = fallback_value(f, acc);
    if j == fields.len() - 1 {
        law_get_after_insert(acc, f.name, v);
    } else {
        assert forall|q: int| j < q < init.len() implies #[trigger] init[q].name != init[j].name by {
            assert(init[q] == fields[q]);
        }
        assert(init[j] == fields[j]);
        law_fallback_without_default(init, j);
        law_insert_keeps_others(acc, f.name, v, fields[j].name);
    }
}

/// Form values by their characters.
pub open spec fn values_view(es: Seq<(Seq<char>, String)>) -> Seq<(Seq<char>, Seq<char>)> {
    map_vals(es, |s: String| s@)
}

/// The field specifications of a list of fields.
pub open spec fn specs_of(fields: Seq<FormField>) -> Seq<FieldSpec> {
    fields.map_values(|f: FormField| f@)
}

/// The values a form gives when it cannot be shown.
pub fn default_form_result(fields: &[FormField]) -> (r: FormResult)
    ensures
        values_view(r.values@) == fallback_values(specs_of(fields@)),
{
    let mut values: StringMap<String> = StringMap::new();
    let ghost specs = specs_of(fields@);
    let mut i: usize = 0;
    assert(specs.take(0) =~= Seq::<FieldSpec>::empty());
    assert(values_view(values@) =~= Seq::<(Seq<char>, Seq<char>)>::empty());
    while i < fields.len()
        invariant
            specs == specs_of(fields@),
            i <= fields@.len(),
            values_view(values@) == fallback_values(specs.take(i as int)),
        decreases fields@.len() - i,
    {
        let field = &fields[i];
        let ghost acc = values_view(values@);
        assert(specs.take(i + 1).drop_last() =~= specs.take(i as int));
        assert(specs.take(i + 1).last() == field@);
        let value: String = if field.field_type == FieldType::Checkbox {
            match &field.default {
                Some(d) => d.clone(),
                None => String::from_str("false"),
            }
        } else if let Some(default) = &field.default {
            default.clone()
        } else if let Some(dep_name) = &field.depends_on {
            proof {
                lemma_get_map_vals(values@, dep_name@, |s: String| s@);
            }
            match values.get(dep_name.as_str()) {
                Some(parent) => match &field.depends_map {
                    Some(m) => {
                        proof {
                            lemma_get_map_vals(
                                m@,
                                parent@,
                                |v: Vec<String>| crate::form::list_view(v@),
                            );
                        }
                        match m.get(parent.as_str()) {
                            Some(items) => if items.len() > 0 {
                                items[0].clone()
                            } else {
                                String::new()
                            },
                            None => String::new(),
                        }
                    },
                    None => String::new(),
                },
                None => String::new(),
            }
        } else {
            match &field.values {
                Some(vs) if vs.len() > 0 => vs[0].clone(),
                _ => match &field.placeholder {
                    Some(p) => p.clone(),
                    None => String::new(),
                },
            }
        };
        assert(value@ == fallback_value(field@, acc));
        proof {
            lemma_insert_map_vals(values@, field.name@, value, |s: String| s@);
        }
        values.insert(field.name.clone(), value);
        i = i + 1;
    }
    assert(specs.take(i as int) =~= specs);
    FormResult { values }
}

/// The first `n` bytes of `s`, where `n` falls between two characters.
pub open spec fn byte_prefix(s: Seq<char>, n: nat) -> Seq<char> {
    s.take(byte_cut(s, n))
}

/// The number of leading characters of `s` that take `n` bytes.
pub open spec fn byte_cut(s: Seq<char>, n: nat) -> int {
    choose|k: int| 0 <= k <= s.len() && byte_len(s.take(k)) == n
}

/// `n` bytes into `s` falls between two characters.
pub open spec fn is_char_boundary(s: Seq<char>, n: nat) -> bool {
    exists|k: int| 0 <= k <= s.len() && byte_len(s.take(k)) == n
}

/// `s` when it takes at most `max` bytes; else its first `max - 3` bytes
/// (none when `max` is below 3) followed by `...`.
pub open spec fn truncate_spec(s: Seq<char>, max: nat) -> Seq<char> {
    if byte_len(s) <= max {
        s
    } else {
        byte_prefix(s, if max >= 3 {
            (max - 3) as nat
        } else {
            0
        }) + "..."@
    }
}

/// The number of bytes of a prefix grows by the width of each character.
pub proof fn lemma_byte_len_take(s: Seq<char>, k: int)
    requires
        0 <= k < s.len(),
    ensures
        byte_len(s.take(k + 1)) == byte_len(s.take(k)) + utf8_width(s[k]),
    decreases k,
{
    if k == 0 {
        assert(s.take(1).drop_first() =~= Seq::<char>::empty());
        assert(s.take(1)[0] == s[0]);
        assert(byte_len(s.take(0)) == 0);
        assert(byte_len(Seq::<char>::empty()) == 0);
    } else {
        lemma_byte_len_take(s.drop_first(), k - 1);
        assert(s.take(k + 1).drop_first() =~= s.drop_first().take(k));
        assert(s.take(k).drop_first() =~= s.drop_first().take(k - 1));
        assert(s.take(k + 1)[0] == s[0]);
        assert(s.take(k)[0] == s[0]);
        assert(s.drop_first()[k - 1] == s[k]);
    }
}

/// The byte length of a prefix never exceeds that of the whole.
pub proof fn lemma_byte_len_prefix_le(s: Seq<char>, k: int)
    requires
        0 <= k <= s.len(),
    ensures
        byte_len(s.take(k)) <= byte_len(s),
    decreases s.len() - k,
{
    if k < s.len() {
        lemma_byte_len_take(s, k);
        lemma_byte_len_prefix_le(s, k + 1);
    } else {
        assert(s.take(k) =~= s);
    }
}

/// The number of leading characters of `s` that take exactly `n` bytes.
pub fn char_count_for_bytes(s: &[char], n: usize) -> (k: usize)
    requires
        is_char_boundary(s@, n as nat),
    ensures
        k <= s@.len(),
        byte_len(s@.take(k as int)) == n,
        k == byte_cut(s@, n as nat),
{
    let mut k: usize = 0;
    let mut bytes: usize = 0;
    let ghost w = choose|w: int| 0 <= w <= s@.len() && byte_len(s@.take(w)) == n;
    assert(s@.take(0) =~= Seq::<char>::empty());
    while bytes < n
        invariant
            0 <= w <= s@.len(),
            byte_len(s@.take(w)) == n,
            k <= w,
            bytes == byte_len(s@.take(k as int)),
            bytes <= n,
        decreases w - k,
    {
        proof {
            if k == w {
                assert(false);
            }
            lemma_byte_len_take(s@, k as int);
            lemma_monotone_take(s@, k as int + 1, w);
        }
        let c = s[k];
        let u = c as u32;
        let width: usize = if u <= 0x7F {
            1
        } else if u <= 0x7FF {
            2
        } else if u <= 0xFFFF {
            3
        } else {
            4
        };
        bytes = bytes + width;
        k = k + 1;
    }
    proof {
        lemma_take_injective(s@, k as int, w);
        let c = choose|c: int| 0 <= c <= s@.len() && byte_len(s@.take(c)) == n;
        lemma_take_injective(s@, k as int, c);
    }
    k
}

/// Whether `n` bytes into `s` falls between two characters.
pub fn boundary_at(s: &[char], n: usize) -> (b: bool)
    ensures
        b == is_char_boundary(s@, n as nat),
{
    let mut k: usize = 0;
    let mut bytes: u128 = 0;
    assert(s@.take(0) =~= Seq::<char>::empty());
    while bytes < n as u128 && k < s.len()
        invariant
            k <= s@.len(),
            bytes == byte_len(s@.take(k as int)),
            forall|w: int| 0 <= w < k ==> byte_len(s@.take(w)) < n,
        decreases s@.len() - k,
    {
        proof {
            lemma_byte_len_take(s@, k as int);
            assert forall|w: int| 0 <= w < k + 1 implies byte_len(s@.take(w)) < n by {
                if w == k {
                }
            }
        }
        let c = s[k];
        let u = c as u32;
        let width: u128 = if u <= 0x7F {
            1
        } else if u <= 0x7FF {
            2
        } else if u <= 0xFFFF {
            3
        } else {
            4
        };
        bytes = bytes + width;
        k = k + 1;
    }
    if bytes == n as u128 {
        assert(0 <= k <= s@.len() && byte_len(s@.take(k as int)) == n);
        true
    } else {
        proof {
            assert forall|w: int| 0 <= w <= s@.len() implies byte_len(#[trigger] s@.take(w)) != n by {
                if w > k {
                    lemma_monotone_take(s@, k as int, w);
                } else if w == k {
                    if k == s@.len() {
                        assert(s@.take(w) =~= s@.take(k as int));
                    }
                }
            }
        }
        false
    }
}

/// Byte lengths of prefixes grow with the prefix.
pub proof fn lemma_monotone_take(s: Seq<char>, a: int, b: int)
    requires
        0 <= a <= b <= s.len(),
    ensures
        byte_len(s.take(a)) <= byte_len(s.take(b)),
        a < b ==> byte_len(s.take(a)) < byte_len(s.take(b)),
    decreases b - a,
{
    if a < b {
        lemma_byte_len_take(s, b - 1);
        lemma_monotone_take(s, a, b - 1);
    }
}

/// Prefixes of different lengths take different numbers of bytes.
pub proof fn lemma_take_injective(s: Seq<char>, a: int, b: int)
    requires
        0 <= a <= s.len(),
        0 <= b <= s.len(),
        byte_len(s.take(a)) == byte_len(s.take(b)),
    ensures
        a == b,
{
    if a < b {
        lemma_monotone_take(s, a, b);
    } else if b < a {
        lemma_monotone_take(s, b, a);
    }
}

/// `s` cut to at most `max` bytes, with `...` marking the cut.
pub fn truncate(s: &str, max: usize) -> (r: String)
    requires
        byte_len(s@) > max ==> is_char_boundary(s@, if max >= 3 {
            (max - 3) as nat
        } else {
            0
        }),
    ensures
        r@ == truncate_spec(s@, max as nat),
{
    let n = str_byte_len(s);
    if n <= max {
        return String::from_str(s);
    }
    let cut: usize = if max >= 3 {
        max - 3
    } else {
        0
    };
    let cs = chars_of(s);
    let k = char_count_for_bytes(&cs, cut);
    let mut out = copy_range(&cs, 0, k);
    out.push('.');
    out.push('.');
    out.push('.');
    proof {
        reveal_strlit("...");
        assert(out@ =~= s@.take(k as int) + "..."@);
    }
    string_of(&out)
}

/// A truncated text fits: it takes at most `max` bytes, `...` included,
/// for a limit that leaves room for the dots.
pub proof fn law_truncate_fits(s: Seq<char>, max: nat)
    requires
        max >= 3,
        byte_len(s) > max ==> is_char_boundary(s, (max - 3) as nat),
    ensures
        byte_len(truncate_spec(s, max)) <= max,
{
    if byte_len(s) > max {
        let cut = (max - 3) as nat;
        let k = byte_cut(s, cut);
        let head = s.take(k);
        assert(byte_len(head) == cut);
        reveal_strlit("...");
        let dots = "..."@;
        assert(dots =~= seq!['.', '.', '.']);
        assert(byte_len(dots) == 3) by {
            let d1 = dots.drop_first();
            let d2 = d1.drop_first();
            let d3 = d2.drop_first();
            assert(d3 =~= Seq::<char>::empty());
            assert(byte_len(d3) == 0);
            assert(utf8_width('.') == 1);
            assert(byte_len(d2) == 1);
            assert(byte_len(d1) == 2);
        }
        let whole = head + dots;
        crate::buffer::lemma_byte_len_split(whole, head.len() as int);
        assert(whole.take(head.len() as int) =~= head);
        assert(whole.skip(head.len() as int) =~= dots);
    }
}

/// `rest` put below the directory `base`, as a path is joined: `rest`
/// itself when it is absolute or `base` is empty, else `base`, a `/` unless
/// `base` ends with one, and `rest`.
pub open spec fn join_path(base: Seq<char>, rest: Seq<char>) -> Seq<char> {
    if rest.len() > 0 && rest[0] == '/' {
        rest
    } else if base.len() == 0 {
        rest
    } else if base.last() == '/' {
        base + rest
    } else {
        base + seq!['/'] + rest
    }
}

/// A path with a leading `~/` read as below the home directory `home`.
pub open spec fn expand_path_spec(path: Seq<char>, home: Seq<char>) -> Seq<char> {
    if starts_with(path, seq!['~', '/']) {
        join_path(home, path.skip(2))
    } else {
        path
    }
}

/// `path` with a leading `~/` replaced by the home directory `home`.
pub fn expand_path(path: &str, home: &str) -> (r: String)
    ensures
        r@ == expand_path_spec(path@, home@),
{
    let p = chars_of(path);
    let tilde = vec!['~', '/'];
    if !has_prefix(&p, &tilde) {
        return String::from_str(path);
    }
    let rest = copy_range(&p, 2, p.len());
    assert(rest@ =~= path@.skip(2));
    let base = chars_of(home);
    if rest.len() > 0 && rest[0] == '/' {
        return string_of(&rest);
    }
    if base.len() == 0 {
        return string_of(&rest);
    }
    let mut joined = base;
    if joined[joined.len() - 1] != '/' {
        joined.push('/');
    }
    let mut i: usize = 0;
    let ghost start = joined@;
    while i < rest.len()
        invariant
            i <= rest@.len(),
            joined@ == start + rest@.take(i as int),
        decreases rest@.len() - i,
    {
        joined.push(rest[i]);
        assert(rest@.take(i + 1) =~= rest@.take(i as int).push(rest@[i as int]));
        i = i + 1;
    }
    assert(rest@.take(i as int) =~= rest@);
    string_of(&joined)
}

/// A variable that asks for a form.
pub open spec fn is_form_var(v: VariableDef) -> bool {
    v.var_type@ == "form"@
}

/// The position of the first variable that asks for a form, if any.
pub fn form_var_index(vars: &[VariableDef]) -> (r: Option<usize>)
    ensures
        match r {
            Some(i) => i < vars@.len() && is_form_var(vars@[i as int])
                && forall|j: int| 0 <= j < i ==> !is_form_var(#[trigger] vars@[j]),
            None => forall|j: int| 0 <= j < vars@.len() ==> !is_form_var(#[trigger] vars@[j]),
        },
{
    let form = chars_of("form");
    let mut i: usize = 0;
    while i < vars.len()
        invariant
            i <= vars@.len(),
            form@ == "form"@,
            forall|j: int| 0 <= j < i ==> !is_form_var(#[trigger] vars@[j]),
        decreases vars@.len() - i,
    {
        if chars_eq(&chars_of(vars[i].var_type.as_str()), &form) {
            return Some(i);
        }
        i = i + 1;
    }
    None
}

/// The name under which a form's value is also known: the form
/// variable's name, a dot and the field's name.
pub open spec fn qualified(name: Seq<char>, key: Seq<char>) -> Seq<char> {
    name + seq!['.'] + key
}

/// The variables after the values of form `name` are bound, value after
/// value: each under its qualified name, then under its own.
pub open spec fn with_form_values(
    m: Seq<(Seq<char>, String)>,
    name: Seq<char>,
    es: Seq<(Seq<char>, String)>,
) -> Seq<(Seq<char>, String)>
    decreases es.len(),
{
    if es.len() == 0 {
        m
    } else {
        let p = with_form_values(m, name, es.drop_last());
        let k = es.last().0;
        let v = es.last().1;
        assoc_insert(assoc_insert(p, qualified(name, k), v), k, v)
    }
}

/// Binds the values of form variable `name`: each under `name.field` and
/// under `field`.
pub fn add_form_values(vars: &mut StringMap<String>, name: &str, values: &StringMap<String>)
    ensures
        final(vars)@ == with_form_values(old(vars)@, name@, values@),
{
    let ghost es = values@;
    let ghost start = vars@;
    let mut i: usize = 0;
    assert(es.take(0) =~= Seq::<(Seq<char>, String)>::empty());
    while i < values.len()
        invariant
            es == values@,
            i <= es.len(),
            vars@ == with_form_values(start, name@, es.take(i as int)),
        decreases es.len() - i,
    {
        let (key, value) = values.entry(i);
        assert(es.take(i + 1).drop_last() =~= es.take(i as int));
        let mut full = chars_of(name);
        full.push('.');
        let k = chars_of(key.as_str());
        let full = concat_chars(&full, &k);
        assert(full@ =~= qualified(name@, key@));
        assert(es.take(i + 1).last() == (key@, *value));
        let ghost before = vars@;
        vars.insert(string_of(&full), value.clone());
        vars.insert(key.clone(), value.clone());
        assert(vars@ == assoc_insert(assoc_insert(before, qualified(name@, key@), *value), key@, *value));
        i = i + 1;
    }
    assert(es.take(i as int) =~= es);
}

/// The variables with each binding of `es` added whose name they lack.
pub open spec fn with_missing(
    m: Seq<(Seq<char>, String)>,
    es: Seq<(Seq<char>, String)>,
) -> Seq<(Seq<char>, String)>
    decreases es.len(),
{
    if es.len() == 0 {
        m
    } else {
        let p = with_missing(m, es.drop_last());
        let k = es.last().0;
        if key_index(p, k) is Some {
            p
        } else {
            assoc_insert(p, k, es.last().1)
        }
    }
}

/// Qualified names of different fields differ, and none is a name
/// without a dot.
proof fn lemma_qualified_names(name: Seq<char>, a: Seq<char>, b: Seq<char>)
    requires
        !b.contains('.'),
    ensures
        qualified(name, a) == qualified(name, b) ==> a == b,
        qualified(name, a) != b,
{
    let qa = qualified(name, a);
    let qb = qualified(name, b);
    if qa == qb {
        assert(qa.skip(name.len() as int + 1) =~= a);
        assert(qb.skip(name.len() as int + 1) =~= b);
    }
    assert(qa[name.len() as int] == '.');
    if qa == b {
        assert(b[name.len() as int] == '.');
    }
}

/// A form's values can be read back under both names: after the values of
/// form `name` are bound, each value is found under `name.field` and under
/// `field`, for fields named without dots and each named once.
pub proof fn law_form_values_readable(
    m: Seq<(Seq<char>, String)>,
    name: Seq<char>,
    es: Seq<(Seq<char>, String)>,
)
    requires
        distinct_keys(es),
        forall|i: int| 0 <= i < es.len() ==> !(#[trigger] es[i].0).contains('.'),
    ensures
        forall|i: int| 0 <= i < es.len() ==> {
            &&& assoc_get(with_form_values(m, name, es), qualified(name, #[trigger] es[i].0)) == Some(es[i].1)
            &&& assoc_get(with_form_values(m, name, es), es[i].0) == Some(es[i].1)
        },
    decreases es.len(),
{
    if es.len() > 0 {
        let init = es.drop_last();
        assert forall|i: int| 0 <= i < init.len() implies !(#[trigger] init[i].0).contains('.') by {
            assert(init[i] == es[i]);
        }
        law_form_values_readable(m, name, init);
        let p = with_form_values(m, name, init);
        let k = es.last().0;
        let v = es.last().1;
        let q = qualified(name, k);
        let p1 = assoc_insert(p, q, v);
        let p2 = assoc_insert(p1, k, v);
        assert(!k.contains('.')) by {
            assert(es[es.len() - 1].0 == k);
        }
        law_get_after_insert(p, q, v);
        law_get_after_insert(p1, k, v);
        lemma_qualified_names(name, k, k);
        law_insert_keeps_others(p1, k, v, q);
        assert forall|i: int| 0 <= i < es.len() implies {
            &&& assoc_get(p2, qualified(name, #[trigger] es[i].0)) == Some(es[i].1)
            &&& assoc_get(p2, es[i].0) == Some(es[i].1)
        } by {
            if i < es.len() - 1 {
                let ki = es[i].0;
                assert(init[i] == es[i]);
                assert(ki != k);
                assert(!ki.contains('.'));
                lemma_qualified_names(name, ki, k);
                lemma_qualified_names(name, k, ki);
                law_insert_keeps_others(p, q, v, qualified(name, ki));
                law_insert_keeps_others(p1, k, v, qualified(name, ki));
                law_insert_keeps_others(p, q, v, ki);
                law_insert_keeps_others(p1, k, v, ki);
            }
        }
    }
}

/// Resolved variables never replace a binding: a name bound before keeps
/// its value, and every resolved name ends up bound.
pub proof fn law_missing_keeps_bound(m: Seq<(Seq<char>, String)>, es: Seq<(Seq<char>, String)>)
    ensures
        forall|k: Seq<char>|
            assoc_get(m, k) is Some ==> #[trigger] assoc_get(with_missing(m, es), k) == assoc_get(m, k),
        forall|i: int| 0 <= i < es.len() ==> assoc_get(with_missing(m, es), #[trigger] es[i].0) is Some,
    decreases es.len(),
{
    if es.len() > 0 {
        let init = es.drop_last();
        law_missing_keeps_bound(m, init);
        let p = with_missing(m, init);
        let k = es.last().0;
        let v = es.last().1;
        if key_index(p, k) is None {
            law_get_after_insert(p, k, v);
            assert forall|k2: Seq<char>| assoc_get(m, k2) is Some implies #[trigger] assoc_get(
                with_missing(m, es),
                k2,
            ) == assoc_get(m, k2) by {
                assert(assoc_get(p, k2) == assoc_get(m, k2));
                law_insert_keeps_others(p, k, v, k2);
            }
            assert forall|i: int| 0 <= i < es.len() implies assoc_get(with_missing(m, es), #[trigger] es[i].0) is Some by {
                if i < es.len() - 1 {
                    assert(init[i] == es[i]);
                    assert(assoc_get(p, init[i].0) is Some);
                    law_insert_keeps_others(p, k, v, es[i].0);
                }
            }
        } else {
            assert forall|i: int| 0 <= i < es.len() implies assoc_get(with_missing(m, es), #[trigger] es[i].0) is Some by {
                if i < es.len() - 1 {
                    assert(init[i] == es[i]);
                } else {
                    assert(es[i].0 == k);
                }
            }
        }
    }
}

/// Adds each binding of `resolved` whose name is not bound yet.
pub fn add_missing(vars: &mut StringMap<String>, resolved: &StringMap<String>)
    ensures
        final(vars)@ == with_missing(old(vars)@, resolved@),
{
    let ghost es = resolved@;
    let ghost start = vars@;
    let mut i: usize = 0;
    assert(es.take(0) =~= Seq::<(Seq<char>, String)>::empty());
    while i < resolved.len()
        invariant
            es == resolved@,
            i <= es.len(),
            vars@ == with_missing(start, es.take(i as int)),
        decreases es.len() - i,
    {
        let (key, value) = resolved.entry(i);
        assert(es.take(i + 1).drop_last() =~= es.take(i as int));
        if !vars.contains_key(key.as_str()) {
            vars.insert(key.clone(), value.clone());
        }
        i = i + 1;
    }
    assert(es.take(i as int) =~= es);
}

} // verus!
