//! Building form fields from the field configurations of a match and from
//! the layout and settings of a form variable.
use vstd::prelude::*;
use crate::config::{copy_opt, opt_view, FieldConfig, VariableDef};
use crate::form::{list_view, options_view, FieldSpec, FieldType, FormField};
use crate::strmap::{assoc_get, assoc_insert, key_index, is_first_key, lemma_first_key_unique, lemma_get_map_vals, lemma_insert_map_vals, map_vals, StringMap};
use crate::text::{in_class, is_ws, lemma_trim_by_part, chars_eq, chars_of, string_of, concat_chars, contains, contains_chars, copy_range, find_chars, find_from, lemma_find_from_range, lines, lines_of, occurs_at, trim, trim_by, trim_chars, trim_chars_by, CharClass};
use crate::yaml::{as_map_spec, as_seq_spec, as_str_spec, as_bool_spec, get_spec, YamlValue};

verus! {

/// The strings of a YAML sequence, in order; other items are skipped.
pub open spec fn yaml_strings(items: Seq<YamlValue>) -> Seq<Seq<char>>
    decreases items.len(),
{
    if items.len() == 0 {
        seq![]
    } else {
        let rest = yaml_strings(items.drop_last());
        match as_str_spec(items.last()) {
            Some(s) => rest.push(s),
            None => rest,
        }
    }
}

/// The strings of a YAML sequence, in order; other items are skipped.
pub fn strings_of(items: &Vec<YamlValue>) -> (r: Vec<String>)
    ensures
        list_view(r@) == yaml_strings(items@),
{
    let mut r: Vec<String> = Vec::new();
    let mut i: usize = 0;
    assert(list_view(r@) =~= yaml_strings(items@.take(0)));
    while i < items.len()
        invariant
            i <= items@.len(),
            list_view(r@) == yaml_strings(items@.take(i as int)),
        decreases items@.len() - i,
    {
        assert(items@.take(i + 1).drop_last() =~= items@.take(i as int));
        assert(items@.take(i + 1).last() == items@[i as int]);
        match items[i].as_str() {
            Some(s) => {
                let ghost before = r@;
                r.push(s.clone());
                assert(list_view(r@) =~= list_view(before).push(s@));
            },
            None => {},
        }
        i = i + 1;
    }
    assert(items@.take(i as int) =~= items@);
    r
}

/// The option lists of a dependent field, by parent value: every entry of
/// the mapping must have a string key and a sequence value, else there are
/// none; an entry whose sequence has no string adds nothing; a later entry
/// of the same key replaces the earlier one.
pub open spec fn depends_entries(entries: Seq<(YamlValue, YamlValue)>) -> Option<
    Seq<(Seq<char>, Seq<Seq<char>>)>,
>
    decreases entries.len(),
{
    if entries.len() == 0 {
        Some(seq![])
    } else {
        match depends_entries(entries.drop_last()) {
            None => None,
            Some(acc) => match (as_str_spec(entries.last().0), as_seq_spec(entries.last().1)) {
                (Some(k), Some(items)) => {
                    let list = yaml_strings(items);
                    if list.len() > 0 {
                        Some(assoc_insert(acc, k, list))
                    } else {
                        Some(acc)
                    }
                },
                _ => None,
            },
        }
    }
}

/// The option lists of a dependent field, when `v` is a mapping.
pub open spec fn depends_spec(v: YamlValue) -> Option<Seq<(Seq<char>, Seq<Seq<char>>)>> {
    match as_map_spec(v) {
        Some(entries) => depends_entries(entries),
        None => None,
    }
}

/// Once a prefix of the entries has no option lists, neither has the whole.
proof fn lemma_depends_none(entries: Seq<(YamlValue, YamlValue)>, n: int)
    requires
        0 <= n <= entries.len(),
        depends_entries(entries.take(n)) is None,
    ensures
        depends_entries(entries) is None,
    decreases entries.len() - n,
{
    if n < entries.len() {
        assert(entries.take(n + 1).drop_last() =~= entries.take(n));
        lemma_depends_none(entries, n + 1);
    } else {
        assert(entries.take(n) =~= entries);
    }
}

/// The option lists of a dependent field, by parent value, when `val` is a
/// mapping from strings to sequences.
pub fn parse_depends_map(val: &YamlValue) -> (r: Option<StringMap<Vec<String>>>)
    ensures
        match r {
            Some(m) => depends_spec(*val) == Some(options_view(m@)),
            None => depends_spec(*val) is None,
        },
{
    let mapping = match val.as_mapping() {
        Some(m) => m,
        None => return None,
    };
    let mut result: StringMap<Vec<String>> = StringMap::new();
    let mut i: usize = 0;
    assert(options_view(result@) =~= Seq::<(Seq<char>, Seq<Seq<char>>)>::empty());
    assert(mapping@.take(0) =~= Seq::<(YamlValue, YamlValue)>::empty());
    while i < mapping.len()
        invariant
            as_map_spec(*val) == Some(mapping@),
            i <= mapping@.len(),
            depends_entries(mapping@.take(i as int)) == Some(options_view(result@)),
        decreases mapping@.len() - i,
    {
        let ghost pre = mapping@.take(i as int);
        assert(mapping@.take(i + 1).drop_last() =~= pre);
        assert(mapping@.take(i + 1).last() == mapping@[i as int]);
        let entry = &mapping[i];
        let key = match entry.0.as_str() {
            Some(k) => k,
            None => {
                proof {
                    lemma_depends_none(mapping@, i + 1);
                }
                return None;
            },
        };
        let seq = match entry.1.as_sequence() {
            Some(s) => s,
            None => {
                proof {
                    lemma_depends_none(mapping@, i + 1);
                }
                return None;
            },
        };
        let list = strings_of(seq);
        if list.len() > 0 {
            proof {
                lemma_insert_map_vals(result@, key@, list, |v: Vec<String>| list_view(v@));
            }
            result.insert(key.clone(), list);
        }
        i = i + 1;
    }
    assert(mapping@.take(i as int) =~= mapping@);
    Some(result)
}

/// The field type that a configured type name selects.
pub open spec fn field_type_of(t: Option<Seq<char>>) -> FieldType {
    match t {
        Some(s) => if s == "choice"@ {
            FieldType::Choice
        } else if s == "list"@ {
            FieldType::List
        } else if s == "checkbox"@ || s == "bool"@ || s == "boolean"@ {
            FieldType::Checkbox
        } else if s == "password"@ || s == "secret"@ {
            FieldType::Password
        } else {
            FieldType::Text
        },
        None => FieldType::Text,
    }
}

/// The field type that a configured type name selects.
pub fn field_type_named(t: Option<&str>) -> (r: FieldType)
    ensures
        r == field_type_of(match t {
            Some(s) => Some(s@),
            None => None,
        }),
{
    let s = match t {
        Some(s) => chars_of(s),
        None => return FieldType::Text,
    };
    if chars_eq(&s, &chars_of("choice")) {
        FieldType::Choice
    } else if chars_eq(&s, &chars_of("list")) {
        FieldType::List
    } else if chars_eq(&s, &chars_of("checkbox")) || chars_eq(&s, &chars_of("bool")) || chars_eq(
        &s,
        &chars_of("boolean"),
    ) {
        FieldType::Checkbox
    } else if chars_eq(&s, &chars_of("password")) || chars_eq(&s, &chars_of("secret")) {
        FieldType::Password
    } else {
        FieldType::Text
    }
}

/// `name` followed by a colon.
pub open spec fn colon_label(name: Seq<char>) -> Seq<char> {
    name.push(':')
}

/// The field that a configured form field gives.
pub open spec fn config_field(name: Seq<char>, cfg: FieldConfig) -> FieldSpec {
    let values = match cfg.values {
        Some(v) => match as_seq_spec(v) {
            Some(items) => Some(yaml_strings(items)),
            None => None,
        },
        None => None,
    };
    let depends_map = if cfg.depends_on is Some {
        match cfg.values {
            Some(v) => depends_spec(v),
            None => None,
        }
    } else {
        None
    };
    FieldSpec {
        name: name,
        label: colon_label(name),
        section: None,
        field_type: field_type_of(opt_view(cfg.field_type)),
        default: opt_view(cfg.default),
        placeholder: opt_view(cfg.placeholder),
        values: if depends_map is Some {
            None
        } else {
            values
        },
        multiline: match cfg.multiline {
            Some(b) => b,
            None => false,
        },
        depends_on: opt_view(cfg.depends_on),
        depends_map: depends_map,
    }
}

/// `name` followed by a colon.
fn colon_after(name: &str) -> (r: String)
    ensures
        r@ == colon_label(name@),
{
    let mut v = chars_of(name);
    v.push(':');
    string_of(&v)
}

/// The form fields of a match's `form_fields`, in the map's order.
pub fn build_form_fields(fields: Option<&StringMap<FieldConfig>>) -> (r: Vec<FormField>)
    ensures
        fields is None ==> r@.len() == 0,
        fields matches Some(m) ==> r@.len() == m@.len() && forall|i: int|
            0 <= i < r@.len() ==> #[trigger] r@[i]@ == config_field(m@[i].0, m@[i].1),
{
    let mut result: Vec<FormField> = Vec::new();
    if let Some(fields) = fields {
        let mut i: usize = 0;
        while i < fields.len()
            invariant
                i <= fields@.len(),
                result@.len() == i,
                forall|j: int|
                    0 <= j < i ==> #[trigger] result@[j]@ == config_field(
                        fields@[j].0,
                        fields@[j].1,
                    ),
            decreases fields@.len() - i,
        {
            let (name, config) = fields.entry(i);
            let field_type = field_type_named(
                match &config.field_type {
                    Some(t) => Some(t.as_str()),
                    None => None,
                },
            );
            let values: Option<Vec<String>> = match &config.values {
                Some(v) => match v.as_sequence() {
                    Some(items) => Some(strings_of(items)),
                    None => None,
                },
                None => None,
            };
            let depends_on = copy_opt(&config.depends_on);
            let depends_map = if config.depends_on.is_some() {
                match &config.values {
                    Some(v) => parse_depends_map(v),
                    None => None,
                }
            } else {
                None
            };
            let resolved_values = if depends_map.is_some() {
                None
            } else {
                values
            };
            let field = FormField {
                name: name.clone(),
                label: colon_after(name.as_str()),
                section: None,
                field_type,
                default: copy_opt(&config.default),
                placeholder: copy_opt(&config.placeholder),
                values: resolved_values,
                multiline: match config.multiline {
                    Some(b) => b,
                    None => false,
                },
                depends_on,
                depends_map,
            };
            assert(field@ == config_field(fields@[i as int].0, fields@[i as int].1));
            result.push(field);
            i = i + 1;
        }
    }
    result
}

/// The mark that opens a field in a form layout.
pub open spec fn open_mark() -> Seq<char> {
    seq!['[', '[']
}

/// The mark that closes a field in a form layout.
pub open spec fn close_mark() -> Seq<char> {
    seq![']', ']']
}

/// A field found in a layout: its name, its label and its section.
pub type MetaSpec = (Seq<char>, Seq<char>, Option<Seq<char>>);

/// The label of a layout field: the text before it, ending in a colon; the
/// field's name and a colon where there is no text.
pub open spec fn label_for(fname: Seq<char>, flabel: Seq<char>) -> Seq<char> {
    if flabel.len() > 0 && flabel.last() == ':' {
        flabel
    } else if flabel.len() == 0 {
        colon_label(fname)
    } else {
        colon_label(flabel)
    }
}

/// The fields `[[name]]` of a trimmed layout line, from index `from` on.
/// The text before the first field labels it; a later field is labelled by
/// its name.  A field with a blank name is skipped, and an opening mark
/// without a closing mark ends the line.
pub open spec fn scan_fields(t: Seq<char>, from: nat, section: Option<Seq<char>>) -> Seq<MetaSpec>
    decreases t.len() + 1 - from,
{
    match find_from(t, open_mark(), from) {
        None => seq![],
        Some(start) => match find_from(t, close_mark(), start) {
            None => seq![],
            Some(end) => {
                proof {
                    lemma_find_from_range(t, open_mark(), from);
                    lemma_find_from_range(t, close_mark(), start);
                }
                let fname = trim(t.subrange(start as int + 2, end as int));
                let flabel = if from == 0 {
                    trim(t.take(start as int))
                } else {
                    fname
                };
                let here = if fname.len() > 0 {
                    seq![(fname, label_for(fname, flabel), section)]
                } else {
                    seq![]
                };
                here + scan_fields(t, end + 2, section)
            },
        },
    }
}

/// The fields of a layout's lines, and the section that the last heading
/// opened.  A line without `[[` is a heading when anything is left of it
/// after rules, frames and blanks are trimmed.
pub open spec fn layout_fields(ls: Seq<Seq<char>>) -> (Seq<MetaSpec>, Option<Seq<char>>)
    decreases ls.len(),
{
    if ls.len() == 0 {
        (seq![], None)
    } else {
        let prev = layout_fields(ls.drop_last());
        let t = trim(ls.last());
        if !contains(t, open_mark()) {
            let h = trim(trim_by(t, CharClass::SectionRule));
            (prev.0, if h.len() > 0 {
                Some(h)
            } else {
                prev.1
            })
        } else {
            (prev.0 + scan_fields(t, 0, prev.1), prev.1)
        }
    }
}

/// A heading trimmed of whitespace: not empty, and neither its first nor
/// its last character is whitespace.
pub open spec fn trimmed_heading(h: Seq<char>) -> bool {
    &&& h.len() > 0
    &&& !is_ws(h[0])
    &&& !is_ws(h.last())
}

/// A section heading as a form shows it: trimmed, and neither its first
/// nor its last character is one of the rule and frame characters `-`,
/// `=`, `─`, `═`, `╔`, `╗`, `╚`, `╝`, `║`, `│`.
pub open spec fn bare_heading(h: Seq<char>) -> bool {
    &&& trimmed_heading(h)
    &&& !in_class(CharClass::SectionRule, h[0])
    &&& !in_class(CharClass::SectionRule, h.last())
}

/// A line whose only whitespace is the space.
pub open spec fn spaced_only(line: Seq<char>) -> bool {
    forall|j: int| 0 <= j < line.len() && is_ws(#[trigger] line[j]) ==> line[j] == ' '
}

/// A heading that is trimmed, and bare too when `spaced` holds.
pub open spec fn heading_ok(h: Seq<char>, spaced: bool) -> bool {
    trimmed_heading(h) && (spaced ==> bare_heading(h))
}

/// The heading that a line without fields opens is trimmed, and bare for a
/// line whose only whitespace is the space.
proof fn lemma_heading_bare(line: Seq<char>, spaced: bool)
    requires
        spaced ==> spaced_only(line),
    ensures
        trim(trim_by(trim(line), CharClass::SectionRule)).len() > 0 ==> heading_ok(
            trim(trim_by(trim(line), CharClass::SectionRule)),
            spaced,
        ),
{
    let t = trim(line);
    let o0 = lemma_trim_by_part(line, CharClass::Whitespace);
    let b = trim_by(t, CharClass::SectionRule);
    let o1 = lemma_trim_by_part(t, CharClass::SectionRule);
    let h = trim(b);
    let o2 = lemma_trim_by_part(b, CharClass::Whitespace);
    assert(in_class(CharClass::SectionRule, ' '));
    if spaced && b.len() > 0 {
        assert(b[0] == t[o1]);
        assert(t[o1] == line[o1 + o0]);
        assert(b[b.len() - 1] == t[b.len() - 1 + o1]);
        assert(t[b.len() - 1 + o1] == line[b.len() - 1 + o1 + o0]);
        assert(!is_ws(b[0]));
        assert(!is_ws(b.last()));
        assert(trim_by(b, CharClass::Whitespace) == b);
    }
}

/// Every field that a scan of a line finds stands in the given section.
proof fn lemma_scan_section(t: Seq<char>, from: nat, section: Option<Seq<char>>)
    ensures
        forall|k: int|
            0 <= k < scan_fields(t, from, section).len() ==> (#[trigger] scan_fields(t, from, section)[k]).2
                == section,
    decreases t.len() + 1 - from,
{
    match find_from(t, open_mark(), from) {
        None => {},
        Some(start) => match find_from(t, close_mark(), start) {
            None => {},
            Some(end) => {
                lemma_find_from_range(t, open_mark(), from);
                lemma_find_from_range(t, close_mark(), start);
                lemma_scan_section(t, end + 2, section);
                let all = scan_fields(t, from, section);
                let rest = scan_fields(t, end + 2, section);
                assert forall|k: int| 0 <= k < all.len() implies (#[trigger] all[k]).2 == section by {
                    if k >= all.len() - rest.len() {
                        assert(all[k] == rest[k - (all.len() - rest.len())]);
                    }
                }
            },
        },
    }
}

/// The sections of a layout are trimmed headings, and bare ones when its
/// lines hold no whitespace but spaces; so is the section its last heading
/// opened.
proof fn lemma_layout_sections(ls: Seq<Seq<char>>, spaced: bool)
    requires
        spaced ==> forall|i: int| 0 <= i < ls.len() ==> spaced_only(#[trigger] ls[i]),
    ensures
        layout_fields(ls).1 matches Some(h) ==> heading_ok(h, spaced),
        forall|k: int|
            0 <= k < layout_fields(ls).0.len() ==> ((#[trigger] layout_fields(ls).0[k]).2 matches Some(h)
                ==> heading_ok(h, spaced)),
    decreases ls.len(),
{
    if ls.len() > 0 {
        let init = ls.drop_last();
        if spaced {
            assert forall|i: int| 0 <= i < init.len() implies spaced_only(#[trigger] init[i]) by {
                assert(init[i] == ls[i]);
            }
            assert(spaced_only(ls[ls.len() - 1]));
        }
        lemma_layout_sections(init, spaced);
        let prev = layout_fields(init);
        let t = trim(ls.last());
        if !contains(t, open_mark()) {
            lemma_heading_bare(ls.last(), spaced);
        } else {
            lemma_scan_section(t, 0, prev.1);
            let all = layout_fields(ls).0;
            let found = scan_fields(t, 0, prev.1);
            assert forall|k: int| 0 <= k < all.len() implies ((#[trigger] all[k]).2 matches Some(h)
                ==> heading_ok(h, spaced)) by {
                if k < prev.0.len() {
                    assert(all[k] == prev.0[k]);
                } else {
                    assert(all[k] == found[k - prev.0.len()]);
                }
            }
        }
    }
}

/// The sections of a form variable's fields as its layout gives them.
proof fn lemma_var_sections(var: VariableDef, layout: Seq<char>, spaced: bool)
    requires
        var.params is Some,
        get_spec(var.params.unwrap(), "layout"@) is Some,
        as_str_spec(get_spec(var.params.unwrap(), "layout"@).unwrap()) == Some(layout),
        spaced ==> forall|i: int| 0 <= i < lines(layout).len() ==> spaced_only(#[trigger] lines(layout)[i]),
    ensures
        forall|k: int|
            0 <= k < form_var_fields(var).len() ==> ((#[trigger] form_var_fields(var)[k]).section matches Some(h)
                ==> heading_ok(h, spaced)),
{
    let ls = lines(layout);
    lemma_layout_sections(ls, spaced);
    let cfgs = var_cfgs(var.params.unwrap());
    let ms = layout_fields(ls).0;
    assert(form_var_fields(var) == ms.map_values(|m: MetaSpec| var_field(m, cfgs)));
    assert forall|k: int| 0 <= k < form_var_fields(var).len() implies ((#[trigger] form_var_fields(
        var,
    )[k]).section matches Some(h) ==> heading_ok(h, spaced)) by {
        assert(form_var_fields(var)[k] == var_field(ms[k], cfgs));
        assert(ms[k] == layout_fields(ls).0[k]);
    }
}

/// A layout line without `[[` opens a section named by the line with
/// whitespace stripped from both ends: the section of every field of a form
/// variable is a non-empty heading that neither starts nor ends with
/// whitespace.
pub proof fn law_sections_are_trimmed(var: VariableDef, layout: Seq<char>)
    requires
        var.params is Some,
        get_spec(var.params.unwrap(), "layout"@) is Some,
        as_str_spec(get_spec(var.params.unwrap(), "layout"@).unwrap()) == Some(layout),
    ensures
        forall|k: int|
            0 <= k < form_var_fields(var).len() ==> ((#[trigger] form_var_fields(var)[k]).section matches Some(h)
                ==> trimmed_heading(h)),
{
    lemma_var_sections(var, layout, false);
}

/// A layout line without `[[` opens a section named by the line with
/// whitespace and the rule and frame characters stripped from both ends: in
/// a layout whose lines hold no whitespace but spaces, the section of every
/// field of a form variable is a bare heading.
pub proof fn law_sections_are_bare(var: VariableDef, layout: Seq<char>)
    requires
        var.params is Some,
        get_spec(var.params.unwrap(), "layout"@) is Some,
        as_str_spec(get_spec(var.params.unwrap(), "layout"@).unwrap()) == Some(layout),
        forall|i: int| 0 <= i < lines(layout).len() ==> spaced_only(#[trigger] lines(layout)[i]),
    ensures
        forall|k: int|
            0 <= k < form_var_fields(var).len() ==> ((#[trigger] form_var_fields(var)[k]).section matches Some(h)
                ==> bare_heading(h)),
{
    lemma_var_sections(var, layout, true);
}

/// The settings of a field: each string key of the mapping with its value,
/// a later key replacing an earlier one.
pub open spec fn cfg_entries(es: Seq<(YamlValue, YamlValue)>) -> Seq<(Seq<char>, YamlValue)>
    decreases es.len(),
{
    if es.len() == 0 {
        seq![]
    } else {
        let acc = cfg_entries(es.drop_last());
        match as_str_spec(es.last().0) {
            Some(k) => assoc_insert(acc, k, es.last().1),
            None => acc,
        }
    }
}

/// The fields of a `fields` mapping: each string key whose value is a
/// mapping, with that mapping's settings.
pub open spec fn field_cfgs(es: Seq<(YamlValue, YamlValue)>) -> Seq<
    (Seq<char>, Seq<(Seq<char>, YamlValue)>),
>
    decreases es.len(),
{
    if es.len() == 0 {
        seq![]
    } else {
        let acc = field_cfgs(es.drop_last());
        match (as_str_spec(es.last().0), as_map_spec(es.last().1)) {
            (Some(f), Some(cm)) => assoc_insert(acc, f, cfg_entries(cm)),
            _ => acc,
        }
    }
}

/// The field settings of a form variable's parameters.
pub open spec fn var_cfgs(params: YamlValue) -> Seq<(Seq<char>, Seq<(Seq<char>, YamlValue)>)> {
    match get_spec(params, "fields"@) {
        Some(fv) => match as_map_spec(fv) {
            Some(es) => field_cfgs(es),
            None => seq![],
        },
        None => seq![],
    }
}

/// A setting that is a string.
pub open spec fn cfg_str(cfg: Seq<(Seq<char>, YamlValue)>, key: Seq<char>) -> Option<Seq<char>> {
    match assoc_get(cfg, key) {
        Some(v) => as_str_spec(v),
        None => None,
    }
}

/// The form field of a layout field, with its settings if it has any.
pub open spec fn var_field(meta: MetaSpec, cfgs: Seq<(Seq<char>, Seq<(Seq<char>, YamlValue)>)>) -> FieldSpec {
    let (fname, label, section) = meta;
    match assoc_get(cfgs, fname) {
        None => FieldSpec {
            name: fname,
            label: label,
            section: section,
            field_type: FieldType::Text,
            default: None,
            placeholder: None,
            values: None,
            multiline: false,
            depends_on: None,
            depends_map: None,
        },
        Some(cfg) => {
            let values = match assoc_get(cfg, "values"@) {
                Some(v) => match as_seq_spec(v) {
                    Some(items) => if yaml_strings(items).len() > 0 {
                        Some(yaml_strings(items))
                    } else {
                        None
                    },
                    None => None,
                },
                None => None,
            };
            let depends_on = cfg_str(cfg, "depends_on"@);
            let dependent = depends_on is Some && assoc_get(cfg, "values"@) is Some;
            FieldSpec {
                name: fname,
                label: label,
                section: section,
                field_type: field_type_of(cfg_str(cfg, "type"@)),
                default: cfg_str(cfg, "default"@),
                placeholder: cfg_str(cfg, "placeholder"@),
                values: if dependent {
                    None
                } else {
                    values
                },
                multiline: match assoc_get(cfg, "multiline"@) {
                    Some(v) => match as_bool_spec(v) {
                        Some(b) => b,
                        None => false,
                    },
                    None => false,
                },
                depends_on: depends_on,
                depends_map: if dependent {
                    depends_spec(assoc_get(cfg, "values"@).unwrap())
                } else {
                    None
                },
            }
        },
    }
}

/// The form fields of a form variable: one for each `[[name]]` of its
/// `layout` parameter, set up by its `fields` parameter.
pub open spec fn form_var_fields(var: VariableDef) -> Seq<FieldSpec> {
    match var.params {
        None => seq![],
        Some(p) => match get_spec(p, "layout"@) {
            None => seq![],
            Some(lv) => match as_str_spec(lv) {
                None => seq![],
                Some(layout) => {
                    let cfgs = var_cfgs(p);
                    layout_fields(lines(layout)).0.map_values(|m: MetaSpec| var_field(m, cfgs))
                },
            },
        },
    }
}

/// A field found in a layout line.
pub struct FieldMeta {
    pub name: Vec<char>,
    pub label: Vec<char>,
    pub section: Option<Vec<char>>,
}

/// The characters of an optional character vector.
pub open spec fn opt_chars(o: Option<Vec<char>>) -> Option<Seq<char>> {
    match o {
        Some(v) => Some(v@),
        None => None,
    }
}

/// A layout field by its characters.
pub open spec fn meta_view(m: FieldMeta) -> MetaSpec {
    (m.name@, m.label@, opt_chars(m.section))
}

/// Layout fields by their characters.
pub open spec fn metas_view(ms: Seq<FieldMeta>) -> Seq<MetaSpec> {
    ms.map_values(|m: FieldMeta| meta_view(m))
}

fn copy_opt_chars(o: &Option<Vec<char>>) -> (r: Option<Vec<char>>)
    ensures
        opt_chars(r) == opt_chars(*o),
{
    match o {
        Some(v) => Some(copy_range(v, 0, v.len())),
        None => None,
    }
}

fn label_of(fname: &Vec<char>, flabel: &Vec<char>) -> (r: Vec<char>)
    ensures
        r@ == label_for(fname@, flabel@),
{
    if flabel.len() > 0 && flabel[flabel.len() - 1] == ':' {
        copy_range(flabel, 0, flabel.len())
    } else if flabel.len() == 0 {
        let mut r = copy_range(fname, 0, fname.len());
        r.push(':');
        r
    } else {
        let mut r = copy_range(flabel, 0, flabel.len());
        r.push(':');
        r
    }
}

/// The fields `[[name]]` of a trimmed layout line.
fn scan_line(t: &Vec<char>, section: &Option<Vec<char>>) -> (r: Vec<FieldMeta>)
    ensures
        metas_view(r@) == scan_fields(t@, 0, opt_chars(*section)),
{
    let open = vec!['[', '['];
    let close = vec![']', ']'];
    assert(open@ =~= open_mark());
    assert(close@ =~= close_mark());
    let ghost sec = opt_chars(*section);
    let mut r: Vec<FieldMeta> = Vec::new();
    let mut from: usize = 0;
    let mut done = false;
    assert(metas_view(r@) + scan_fields(t@, 0, sec) =~= scan_fields(t@, 0, sec));
    while !done
        invariant
            open@ == open_mark(),
            close@ == close_mark(),
            sec == opt_chars(*section),
            from <= t@.len() + 1,
            scan_fields(t@, 0, sec) == metas_view(r@) + (if done {
                Seq::<MetaSpec>::empty()
            } else {
                scan_fields(t@, from as nat, sec)
            }),
        decreases t@.len() + 2 - from - (if done {
            1int
        } else {
            0int
        }),
    {
        proof {
            lemma_find_from_range(t@, open_mark(), from as nat);
        }
        match find_chars(t, &open, from) {
            None => {
                assert(metas_view(r@) + Seq::<MetaSpec>::empty() =~= metas_view(r@));
                done = true;
            },
            Some(start) => {
                proof {
                    lemma_find_from_range(t@, close_mark(), start as nat);
                }
                match find_chars(t, &close, start) {
                    None => {
                        assert(metas_view(r@) + Seq::<MetaSpec>::empty() =~= metas_view(r@));
                        done = true;
                    },
                    Some(end) => {
                        proof {
                            assert(t@.subrange(start as int, start + 2)[0] == t@[start as int]);
                            assert(t@.subrange(start as int, start + 2)[1] == t@[start + 1]);
                            assert(t@.subrange(end as int, end + 2)[0] == t@[end as int]);
                            assert(t@.subrange(end as int, end + 2)[1] == t@[end + 1]);
                            assert(end >= start + 2);
                        }
                        let inner = copy_range(t, start + 2, end);
                        let fname = trim_chars(&inner);
                        let flabel = if from == 0 {
                            let before = copy_range(t, 0, start);
                            assert(before@ =~= t@.take(start as int));
                            trim_chars(&before)
                        } else {
                            copy_range(&fname, 0, fname.len())
                        };
                        assert(flabel@ =~= (if from == 0 {
                            trim(t@.take(start as int))
                        } else {
                            fname@
                        }));
                        let ghost before_r = metas_view(r@);
                        if fname.len() > 0 {
                            let label = label_of(&fname, &flabel);
                            let meta = FieldMeta {
                                name: fname,
                                label,
                                section: copy_opt_chars(section),
                            };
                            r.push(meta);
                            assert(metas_view(r@) =~= before_r.push(meta_view(meta)));
                        }
                        let ghost here = if fname@.len() > 0 {
                            seq![(fname@, label_for(fname@, flabel@), sec)]
                        } else {
                            Seq::<MetaSpec>::empty()
                        };
                        assert(metas_view(r@) =~= before_r + here);
                        assert(before_r + (here + scan_fields(t@, (end + 2) as nat, sec)) =~= metas_view(
                            r@,
                        ) + scan_fields(t@, (end + 2) as nat, sec));
                        assert(end + 2 <= t.len());
                        from = end + 2;
                    },
                }
            },
        }
    }
    assert(metas_view(r@) + Seq::<MetaSpec>::empty() =~= metas_view(r@));
    r
}

/// The fields of a layout, in order, each with the section it stands in.
fn layout_meta(layout: &[char]) -> (r: Vec<FieldMeta>)
    ensures
        metas_view(r@) == layout_fields(lines(layout@)).0,
{
    let ls = lines_of(layout);
    let ghost lv = lines(layout@);
    let open = vec!['[', '['];
    assert(open@ =~= open_mark());
    let mut r: Vec<FieldMeta> = Vec::new();
    let mut section: Option<Vec<char>> = None;
    let mut i: usize = 0;
    assert(lv.take(0) =~= Seq::<Seq<char>>::empty());
    assert(metas_view(r@) =~= Seq::<MetaSpec>::empty());
    while i < ls.len()
        invariant
            open@ == open_mark(),
            lv == lines(layout@),
            ls@.len() == lv.len(),
            forall|q: int| 0 <= q < ls@.len() ==> #[trigger] ls@[q]@ == lv[q],
            i <= ls@.len(),
            layout_fields(lv.take(i as int)) == (metas_view(r@), opt_chars(section)),
        decreases ls@.len() - i,
    {
        assert(lv.take(i + 1).drop_last() =~= lv.take(i as int));
        assert(lv.take(i + 1).last() == ls@[i as int]@);
        let t = trim_chars(&ls[i]);
        if !contains_chars(&t, &open) {
            let h = trim_chars(&trim_chars_by(&t, CharClass::SectionRule));
            if h.len() > 0 {
                section = Some(h);
            }
        } else {
            let found = scan_line(&t, &section);
            let ghost before = metas_view(r@);
            let mut found = found;
            let ghost fv = metas_view(found@);
            while found.len() > 0
                invariant
                    metas_view(r@) + metas_view(found@) == before + fv,
                decreases found@.len(),
            {
                let ghost f0 = found@;
                let ghost r0 = r@;
                let m = found.remove(0);
                r.push(m);
                assert(metas_view(r@) =~= metas_view(r0).push(meta_view(m)));
                assert(metas_view(f0) =~= seq![meta_view(m)] + metas_view(found@));
                assert(metas_view(r@) + metas_view(found@) =~= metas_view(r0) + metas_view(f0));
            }
            assert(metas_view(found@) =~= Seq::<MetaSpec>::empty());
            assert(metas_view(r@) =~= before + fv);
        }
        i = i + 1;
    }
    assert(lv.take(i as int) =~= lv);
    r
}

/// Settings that refer to YAML nodes, taken as the nodes.
pub open spec fn ref_vals<'a>(es: Seq<(Seq<char>, &'a YamlValue)>) -> Seq<(Seq<char>, YamlValue)> {
    map_vals(es, |r: &'a YamlValue| *r)
}

/// Field settings by field name, taken as nodes.
pub open spec fn cfgs_view<'a>(es: Seq<(Seq<char>, StringMap<&'a YamlValue>)>) -> Seq<
    (Seq<char>, Seq<(Seq<char>, YamlValue)>),
> {
    map_vals(es, |m: StringMap<&'a YamlValue>| ref_vals(m@))
}

/// The settings of one field: each string key with its value.
fn settings_of<'a>(es: &'a Vec<(YamlValue, YamlValue)>) -> (r: StringMap<&'a YamlValue>)
    ensures
        ref_vals(r@) == cfg_entries(es@),
{
    let mut r: StringMap<&'a YamlValue> = StringMap::new();
    let mut i: usize = 0;
    assert(es@.take(0) =~= Seq::<(YamlValue, YamlValue)>::empty());
    assert(ref_vals(r@) =~= Seq::<(Seq<char>, YamlValue)>::empty());
    while i < es.len()
        invariant
            i <= es@.len(),
            ref_vals(r@) == cfg_entries(es@.take(i as int)),
        decreases es@.len() - i,
    {
        assert(es@.take(i + 1).drop_last() =~= es@.take(i as int));
        assert(es@.take(i + 1).last() == es@[i as int]);
        let e = &es[i];
        match e.0.as_str() {
            Some(k) => {
                proof {
                    lemma_insert_map_vals(r@, k@, &e.1, |x: &'a YamlValue| *x);
                }
                r.insert(k.clone(), &e.1);
            },
            None => {},
        }
        i = i + 1;
    }
    assert(es@.take(i as int) =~= es@);
    r
}

/// The settings of each field of a form variable's `fields` parameter.
fn field_configs<'a>(params: &'a YamlValue) -> (r: StringMap<StringMap<&'a YamlValue>>)
    ensures
        cfgs_view(r@) == var_cfgs(*params),
{
    let mut r: StringMap<StringMap<&'a YamlValue>> = StringMap::new();
    assert(cfgs_view(r@) =~= Seq::<(Seq<char>, Seq<(Seq<char>, YamlValue)>)>::empty());
    let fields_val = match params.get("fields") {
        Some(v) => v,
        None => return r,
    };
    let mapping = match fields_val.as_mapping() {
        Some(m) => m,
        None => return r,
    };
    let mut i: usize = 0;
    assert(mapping@.take(0) =~= Seq::<(YamlValue, YamlValue)>::empty());
    while i < mapping.len()
        invariant
            get_spec(*params, "fields"@) == Some(*fields_val),
            as_map_spec(*fields_val) == Some(mapping@),
            i <= mapping@.len(),
            cfgs_view(r@) == field_cfgs(mapping@.take(i as int)),
        decreases mapping@.len() - i,
    {
        assert(mapping@.take(i + 1).drop_last() =~= mapping@.take(i as int));
        assert(mapping@.take(i + 1).last() == mapping@[i as int]);
        let e = &mapping[i];
        match (e.0.as_str(), e.1.as_mapping()) {
            (Some(fname), Some(cfg_map)) => {
                let cfg = settings_of(cfg_map);
                proof {
                    lemma_insert_map_vals(
                        r@,
                        fname@,
                        cfg,
                        |m: StringMap<&'a YamlValue>| ref_vals(m@),
                    );
                }
                r.insert(fname.clone(), cfg);
            },
            _ => {},
        }
        i = i + 1;
    }
    assert(mapping@.take(i as int) =~= mapping@);
    r
}

/// A setting that is a string.
fn setting_str<'a>(cfg: &StringMap<&'a YamlValue>, key: &str) -> (r: Option<String>)
    ensures
        opt_view(r) == cfg_str(ref_vals(cfg@), key@),
{
    proof {
        lemma_get_map_vals(cfg@, key@, |x: &'a YamlValue| *x);
    }
    match cfg.get(key) {
        Some(v) => match v.as_str() {
            Some(s) => Some(s.clone()),
            None => None,
        },
        None => None,
    }
}

/// The form field of a layout field.
fn form_field_of<'a>(meta: &FieldMeta, cfgs: &StringMap<StringMap<&'a YamlValue>>) -> (f: FormField)
    ensures
        f@ == var_field(meta_view(*meta), cfgs_view(cfgs@)),
{
    proof {
        lemma_get_map_vals(cfgs@, meta.name@, |m: StringMap<&'a YamlValue>| ref_vals(m@));
    }
    let name = string_of(&meta.name);
    let label = string_of(&meta.label);
    let section = match &meta.section {
        Some(v) => Some(string_of(v)),
        None => None,
    };
    match cfgs.position(&meta.name) {
        None => {
            FormField {
                name,
                label,
                section,
                field_type: FieldType::Text,
                default: None,
                placeholder: None,
                values: None,
                multiline: false,
                depends_on: None,
                depends_map: None,
            }
        },
        Some(i) => {
            let (_, cfg) = cfgs.entry(i);
            let kind_setting = setting_str(cfg, "type");
            let field_type = field_type_named(
                match &kind_setting {
                    Some(t) => Some(t.as_str()),
                    None => None,
                },
            );
            let default = setting_str(cfg, "default");
            let placeholder = setting_str(cfg, "placeholder");
            let depends_on = setting_str(cfg, "depends_on");
            proof {
                lemma_get_map_vals(cfg@, "values"@, |x: &'a YamlValue| *x);
                lemma_get_map_vals(cfg@, "multiline"@, |x: &'a YamlValue| *x);
            }
            let multiline = match cfg.get("multiline") {
                Some(v) => match v.as_bool() {
                    Some(b) => b,
                    None => false,
                },
                None => false,
            };
            let values_node = cfg.get("values");
            let mut values: Option<Vec<String>> = match values_node {
                Some(v) => match v.as_sequence() {
                    Some(items) => {
                        let list = strings_of(items);
                        if list.len() > 0 {
                            Some(list)
                        } else {
                            None
                        }
                    },
                    None => None,
                },
                None => None,
            };
            let mut depends_map: Option<StringMap<Vec<String>>> = None;
            if depends_on.is_some() {
                if let Some(v) = values_node {
                    depends_map = parse_depends_map(v);
                    values = None;
                }
            }
            FormField {
                name,
                label,
                section,
                field_type,
                default,
                placeholder,
                values,
                multiline,
                depends_on,
                depends_map,
            }
        },
    }
}

/// The form fields of a form variable (the verbose form syntax): one for
/// each `[[name]]` of its `layout` parameter, labelled by the text before
/// it, in the section of the heading above it, and set up by the entry of
/// the same name in its `fields` parameter.
pub fn build_fields_from_form_var(var: &VariableDef) -> (r: Vec<FormField>)
    ensures
        r@.len() == form_var_fields(*var).len(),
        forall|i: int| 0 <= i < r@.len() ==> #[trigger] r@[i]@ == form_var_fields(*var)[i],
{
    let mut result: Vec<FormField> = Vec::new();
    let params = match &var.params {
        Some(p) => p,
        None => return result,
    };
    let layout = match params.get("layout") {
        Some(v) => match v.as_str() {
            Some(l) => l,
            None => return result,
        },
        None => return result,
    };
    let lay = chars_of(layout.as_str());
    let metas = layout_meta(&lay);
    let cfgs = field_configs(params);
    let ghost cv = cfgs_view(cfgs@);
    let ghost want = form_var_fields(*var);
    assert(want == metas_view(metas@).map_values(|m: MetaSpec| var_field(m, cv)));
    let mut i: usize = 0;
    while i < metas.len()
        invariant
            want == metas_view(metas@).map_values(|m: MetaSpec| var_field(m, cv)),
            cv == cfgs_view(cfgs@),
            i <= metas@.len(),
            result@.len() == i,
            forall|j: int| 0 <= j < i ==> #[trigger] result@[j]@ == want[j],
        decreases metas@.len() - i,
    {
        let f = form_field_of(&metas[i], &cfgs);
        result.push(f);
        i = i + 1;
    }
    result
}

} // verus!
