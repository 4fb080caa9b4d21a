//! Form fields, the values a submitted form gives back, and the text that a
//! form screen shows.
use vstd::prelude::*;
use crate::config::{copy_opt, opt_view};
use crate::records::decimal_chars;
use crate::strmap::{assoc_get, assoc_insert, lemma_get_map_vals, lemma_insert_map_vals, map_vals, StringMap};
use crate::text::{
    chars_eq, chars_of, concat_chars, contains, contains_chars, copy_range, find, find_chars,
    lemma_find_first, occurs_at,
    lowercase, string_of, to_lowercase, trim, trim_chars, trim_chars_by, trim_end_by,
    trim_end_chars, trim_start_by, trim_start_chars, CharClass,
};

verus! {

/// The kind of input a form field takes.
#[derive(Clone, Copy, Debug, PartialEq, Eq, Structural)]
pub enum FieldType {
    Text,
    Choice,
    List,
    Checkbox,
    Password,
}

/// One field of a form.
#[derive(Clone, Debug)]
pub struct FormField {
    pub name: String,
    pub label: String,
    pub section: Option<String>,
    pub field_type: FieldType,
    pub default: Option<String>,
    pub placeholder: Option<String>,
    pub values: Option<Vec<String>>,
    pub multiline: bool,
    pub depends_on: Option<String>,
    /// For a dependent choice: the options for each value of the parent.
    pub depends_map: Option<StringMap<Vec<String>>>,
}

/// The values of a submitted form, by field name.
#[derive(Clone, Debug)]
pub struct FormResult {
    pub values: StringMap<String>,
}

/// A form field with its strings taken by their characters.
pub struct FieldSpec {
    pub name: Seq<char>,
    pub label: Seq<char>,
    pub section: Option<Seq<char>>,
    pub field_type: FieldType,
    pub default: Option<Seq<char>>,
    pub placeholder: Option<Seq<char>>,
    pub values: Option<Seq<Seq<char>>>,
    pub multiline: bool,
    pub depends_on: Option<Seq<char>>,
    pub depends_map: Option<Seq<(Seq<char>, Seq<Seq<char>>)>>,
}

/// The characters of each string of a list.
pub open spec fn list_view(v: Seq<String>) -> Seq<Seq<char>> {
    v.map_values(|s: String| s@)
}

/// A list of option lists by key, strings taken by their characters.
pub open spec fn options_view(es: Seq<(Seq<char>, Vec<String>)>) -> Seq<(Seq<char>, Seq<Seq<char>>)> {
    map_vals(es, |v: Vec<String>| list_view(v@))
}

impl View for FormField {
    type V = FieldSpec;

    open spec fn view(&self) -> FieldSpec {
        FieldSpec {
            name: self.name@,
            label: self.label@,
            section: opt_view(self.section),
            field_type: self.field_type,
            default: opt_view(self.default),
            placeholder: opt_view(self.placeholder),
            values: match self.values {
                Some(v) => Some(list_view(v@)),
                None => None,
            },
            multiline: self.multiline,
            depends_on: opt_view(self.depends_on),
            depends_map: match self.depends_map {
                Some(m) => Some(options_view(m@)),
                None => None,
            },
        }
    }
}

/// The options, each given beside its lowercase form, that a lowercase
/// needle selects: those whose lowercase form contains it; all of them for
/// an empty needle.
pub open spec fn select_lowered(pairs: Seq<(Seq<char>, Seq<char>)>, needle: Seq<char>) -> Seq<
    Seq<char>,
>
    decreases pairs.len(),
{
    if pairs.len() == 0 {
        seq![]
    } else {
        let rest = select_lowered(pairs.drop_last(), needle);
        if needle.len() == 0 || contains(pairs.last().1, needle) {
            rest.push(pairs.last().0)
        } else {
            rest
        }
    }
}

/// The options whose lowercase form contains the lowercase trimmed query;
/// all of them for a blank query.
pub open spec fn filter_spec(options: Seq<Seq<char>>, query: Seq<char>) -> Seq<Seq<char>> {
    if trim(query).len() == 0 {
        options
    } else {
        select_lowered(options.map_values(|o: Seq<char>| (o, lowercase(o))), lowercase(trim(query)))
    }
}

/// The options that a lowercase needle selects, each option given beside
/// its lowercase form, in order.
pub fn filter_lowered(pairs: &[(String, String)], needle: &str) -> (r: Vec<String>)
    ensures
        list_view(r@) == select_lowered(pairs_view(pairs@), needle@),
{
    let n = chars_of(needle);
    let ghost pv = pairs_view(pairs@);
    let mut r: Vec<String> = Vec::new();
    let mut i: usize = 0;
    assert(pv.take(0) =~= Seq::<(Seq<char>, Seq<char>)>::empty());
    while i < pairs.len()
        invariant
            pv == pairs_view(pairs@),
            n@ == needle@,
            i <= pairs@.len(),
            list_view(r@) == select_lowered(pv.take(i as int), needle@),
        decreases pairs@.len() - i,
    {
        assert(pv.take(i + 1).drop_last() =~= pv.take(i as int));
        assert(pv.take(i + 1).last() == pv[i as int]);
        let (option, lower) = &pairs[i];
        if n.len() == 0 || contains_chars(&chars_of(lower.as_str()), &n) {
            let ghost before = list_view(r@);
            r.push(option.clone());
            assert(list_view(r@) =~= before.push(option@));
        }
        i = i + 1;
    }
    assert(pv.take(i as int) =~= pv);
    r
}

/// The options that match a search query, case-insensitively, in order.
pub fn filter_options(options: &[String], query: &str) -> (r: Vec<String>)
    ensures
        list_view(r@) == filter_spec(list_view(options@), query@),
        trim(query@).len() == 0 ==> list_view(r@) == list_view(options@),
{
    let trimmed = string_of(&trim_chars(&chars_of(query)));
    let ghost ov = list_view(options@);
    if trimmed.as_str().is_empty() {
        let mut all: Vec<String> = Vec::new();
        let mut k: usize = 0;
        while k < options.len()
            invariant
                ov == list_view(options@),
                k <= options@.len(),
                list_view(all@) == ov.take(k as int),
            decreases options@.len() - k,
        {
            let ghost before = list_view(all@);
            all.push(options[k].clone());
            assert(list_view(all@) =~= before.push(ov[k as int]));
            assert(ov.take(k + 1) =~= ov.take(k as int).push(ov[k as int]));
            k = k + 1;
        }
        assert(ov.take(k as int) =~= ov);
        return all;
    }
    let needle = to_lowercase(trimmed.as_str());
    let ghost want = ov.map_values(|o: Seq<char>| (o, lowercase(o)));
    let mut pairs: Vec<(String, String)> = Vec::new();
    let mut i: usize = 0;
    while i < options.len()
        invariant
            ov == list_view(options@),
            want == ov.map_values(|o: Seq<char>| (o, lowercase(o))),
            i <= options@.len(),
            pairs_view(pairs@) == want.take(i as int),
        decreases options@.len() - i,
    {
        let lower = to_lowercase(options[i].as_str());
        let ghost before = pairs_view(pairs@);
        pairs.push((options[i].clone(), lower));
        assert(pairs_view(pairs@) =~= before.push(want[i as int]));
        assert(want.take(i + 1) =~= want.take(i as int).push(want[i as int]));
        i = i + 1;
    }
    assert(want.take(i as int) =~= want);
    filter_lowered(&pairs, needle.as_str())
}

/// A label without its decoration: trimmed, leading `-`, `*`, `|`, `║`,
/// `│` and trailing `:`, `|`, `║`, `│` removed, trimmed again.
pub open spec fn clean_spec(label: Seq<char>) -> Seq<char> {
    trim(trim_end_by(trim(trim_start_by(trim(label), CharClass::LabelLead)), CharClass::LabelTail))
}

/// A label without its decoration.
pub fn clean_label(label: &str) -> (r: String)
    ensures
        r@ == clean_spec(label@),
{
    let a = trim_chars(&chars_of(label));
    let b = trim_start_chars(&a, CharClass::LabelLead);
    let c = trim_chars(&b);
    let d = trim_end_chars(&c, CharClass::LabelTail);
    let e = trim_chars(&d);
    string_of(&e)
}

/// How a field's label is shown: indented, ending in a colon, and for a
/// searchable field with a hint that `/` searches (unless it has one).
pub open spec fn display_spec(label: Seq<char>, searchable: bool) -> Seq<char> {
    let base = clean_spec(label);
    if searchable && !contains(base, "/ search"@) && !contains(base, "/search"@) {
        "  - "@ + base + " (/ search):"@
    } else {
        "  - "@ + base + ":"@
    }
}

/// How a field's label is shown.
pub fn display_label(label: &str, searchable: bool) -> (r: String)
    ensures
        r@ == display_spec(label@, searchable),
{
    let base = chars_of(clean_label(label).as_str());
    let hinted = contains_chars(&base, &chars_of("/ search")) || contains_chars(
        &base,
        &chars_of("/search"),
    );
    let tail = if searchable && !hinted {
        chars_of(" (/ search):")
    } else {
        chars_of(":")
    };
    let out = concat_chars(&concat_chars(&chars_of("  - "), &base), &tail);
    string_of(&out)
}

/// The separator between a form's title and the trigger it was opened for.
pub open spec fn title_separator() -> char {
    '\u{1f}'
}

/// A form title that carries the trigger: title, separator, trigger.
pub open spec fn trigger_title_spec(title: Seq<char>, trigger: Seq<char>) -> Seq<char> {
    title.push(title_separator()) + trigger
}

/// The heading a form shows for a title: what follows the first separator,
/// or the whole title when it has none.
pub open spec fn header_spec(title: Seq<char>) -> Seq<char> {
    match find(title, seq![title_separator()]) {
        Some(i) => title.skip(i as int + 1),
        None => title,
    }
}

/// The heading of a title that carries a trigger is that trigger, for a
/// title without the separator.
pub proof fn law_header_shows_trigger(title: Seq<char>, trigger: Seq<char>)
    requires
        !title.contains(title_separator()),
    ensures
        header_spec(trigger_title_spec(title, trigger)) == trigger,
{
    let t = trigger_title_spec(title, trigger);
    let sep = seq![title_separator()];
    let n = title.len();
    assert(t.subrange(n as int, n as int + 1) =~= sep);
    assert forall|j: int| 0 <= j < n implies !occurs_at(t, sep, j) by {
        if occurs_at(t, sep, j) {
            assert(t.subrange(j, j + 1)[0] == t[j]);
            assert(t[j] == title[j]);
        }
    }
    lemma_find_first(t, sep, 0, n);
    assert(t.skip(n as int + 1) =~= trigger);
}

/// A form title that carries the trigger it was opened for.
pub fn trigger_title(title: &str, trigger: &str) -> (r: String)
    ensures
        r@ == trigger_title_spec(title@, trigger@),
{
    let mut t = chars_of(title);
    t.push('\u{1f}');
    let out = concat_chars(&t, &chars_of(trigger));
    string_of(&out)
}

/// The heading a form shows for a title.
pub fn header_title(title: &str) -> (r: String)
    ensures
        r@ == header_spec(title@),
{
    let t = chars_of(title);
    let sep = vec!['\u{1f}'];
    assert(sep@ =~= seq![title_separator()]);
    proof {
        crate::text::lemma_find_from_range(t@, sep@, 0);
    }
    match find_chars(&t, &sep, 0) {
        Some(i) => {
            assert(i < t.len());
            let rest = copy_range(&t, i + 1, t.len());
            assert(rest@ =~= t@.skip(i as int + 1));
            string_of(&rest)
        },
        None => string_of(&t),
    }
}

/// `s` with its ASCII capitals made small (`str::to_ascii_lowercase`).
pub open spec fn ascii_lower(s: Seq<char>) -> Seq<char> {
    s.map_values(|c: char| if 'A' <= c && c <= 'Z' {
        ((c as u32) + 32) as char
    } else {
        c
    })
}

/// A checkbox starts ticked when its default is `true`, `yes`, `1` or `on`,
/// in any ASCII case.
pub open spec fn checked_spec(default: Option<Seq<char>>) -> bool {
    match default {
        Some(v) => {
            let l = ascii_lower(v);
            l == "true"@ || l == "yes"@ || l == "1"@ || l == "on"@
        },
        None => false,
    }
}

/// `i` is the first position of `d` in `vs`.
pub open spec fn is_first_pos(vs: Seq<Seq<char>>, d: Seq<char>, i: int) -> bool {
    0 <= i < vs.len() && vs[i] == d && forall|j: int| 0 <= j < i ==> vs[j] != d
}

/// The first position of `d` in `vs`, if it occurs.
pub open spec fn first_pos(vs: Seq<Seq<char>>, d: Seq<char>) -> Option<int> {
    if exists|i: int| is_first_pos(vs, d, i) {
        Some(choose|i: int| is_first_pos(vs, d, i))
    } else {
        None
    }
}

/// What a field shows on the form screen.
pub enum WidgetSpec {
    /// A drop-down: its items (shown text and value), the one selected, and
    /// the options a search goes through.
    Select {
        items: Seq<(Seq<char>, Seq<char>)>,
        selected: Option<int>,
        options: Option<Seq<Seq<char>>>,
    },
    /// A tick box.
    Checkbox { checked: bool },
    /// A text area with its starting text.
    TextArea { content: Seq<char> },
    /// A one-line input with its starting text, masked or not.
    Edit { content: Seq<char>, secret: bool },
}

/// How one field is laid out on the form screen.
pub struct PlanSpec {
    pub heading: Option<Seq<char>>,
    pub name: Seq<char>,
    pub label: Seq<char>,
    pub widget: WidgetSpec,
    pub cascade_parent: Option<Seq<char>>,
}

/// The items of a drop-down: each value, behind `- ` in a list.
pub open spec fn select_items_spec(vs: Seq<Seq<char>>, is_list: bool) -> Seq<(Seq<char>, Seq<char>)> {
    vs.map_values(|v: Seq<char>| (if is_list {
        seq!['-', ' '] + v
    } else {
        v
    }, v))
}

/// The options of a choice field: for a dependent field, those for the
/// value its parent starts with; else its own.
pub open spec fn available_spec(f: FieldSpec, init: Seq<(Seq<char>, Seq<char>)>) -> Option<Seq<Seq<char>>> {
    if f.depends_on is Some {
        match assoc_get(init, f.depends_on.unwrap()) {
            Some(pv) => match f.depends_map {
                Some(m) => assoc_get(m, pv),
                None => None,
            },
            None => None,
        }
    } else {
        f.values
    }
}

/// The position of a choice field's default among its options, else 0.
pub open spec fn default_index(f: FieldSpec, available: Option<Seq<Seq<char>>>) -> int {
    match (f.default, available) {
        (Some(d), Some(vs)) => match first_pos(vs, d) {
            Some(i) => i,
            None => 0,
        },
        _ => 0,
    }
}

/// The layout of one field, given the section above it and the values that
/// the fields before it start with; and the values after it.
pub open spec fn plan_field(
    f: FieldSpec,
    sec: Option<Seq<char>>,
    init: Seq<(Seq<char>, Seq<char>)>,
) -> (PlanSpec, Seq<(Seq<char>, Seq<char>)>) {
    let heading = if f.section != sec {
        f.section
    } else {
        None
    };
    if f.field_type == FieldType::Choice || f.field_type == FieldType::List {
        let available = available_spec(f, init);
        let items = match available {
            Some(vs) => select_items_spec(vs, f.field_type == FieldType::List),
            None => seq![],
        };
        let idx = default_index(f, available);
        let selected = if items.len() > 0 {
            Some(if idx < items.len() - 1 {
                idx
            } else {
                items.len() - 1
            })
        } else {
            None
        };
        let init2 = match available {
            Some(vs) => if idx < vs.len() {
                assoc_insert(init, f.name, vs[idx])
            } else {
                init
            },
            None => init,
        };
        (
            PlanSpec {
                heading: heading,
                name: f.name,
                label: display_spec(f.label, true),
                widget: WidgetSpec::Select { items: items, selected: selected, options: available },
                cascade_parent: if f.depends_on is Some && f.depends_map is Some {
                    f.depends_on
                } else {
                    None
                },
            },
            init2,
        )
    } else {
        let widget = if f.field_type == FieldType::Checkbox {
            WidgetSpec::Checkbox { checked: checked_spec(f.default) }
        } else if f.multiline {
            WidgetSpec::TextArea {
                content: match f.default {
                    Some(d) => d,
                    None => seq![],
                },
            }
        } else {
            WidgetSpec::Edit {
                content: match f.default {
                    Some(d) => d,
                    None => match f.placeholder {
                        Some(p) => p,
                        None => seq![],
                    },
                },
                secret: f.field_type == FieldType::Password,
            }
        };
        (
            PlanSpec {
                heading: heading,
                name: f.name,
                label: display_spec(f.label, false),
                widget: widget,
                cascade_parent: None,
            },
            init,
        )
    }
}

/// The layout of the fields in order, the section of the last one, and the
/// values the choice fields start with.
pub open spec fn plan_fold(fields: Seq<FieldSpec>) -> (
    Seq<PlanSpec>,
    Option<Seq<char>>,
    Seq<(Seq<char>, Seq<char>)>,
)
    decreases fields.len(),
{
    if fields.len() == 0 {
        (seq![], None, seq![])
    } else {
        let prev = plan_fold(fields.drop_last());
        let step = plan_field(fields.last(), prev.1, prev.2);
        (prev.0.push(step.0), fields.last().section, step.1)
    }
}

/// The plan has one entry per field.
proof fn lemma_plan_len(fields: Seq<FieldSpec>)
    ensures
        plan_fold(fields).0.len() == fields.len(),
    decreases fields.len(),
{
    if fields.len() > 0 {
        lemma_plan_len(fields.drop_last());
    }
}

/// The plan of a field is laid out from what the fields before it leave.
proof fn lemma_plan_at(fields: Seq<FieldSpec>, i: int)
    requires
        0 <= i < fields.len(),
    ensures
        plan_fold(fields).0[i] == plan_field(
            fields[i],
            plan_fold(fields.take(i)).1,
            plan_fold(fields.take(i)).2,
        ).0,
    decreases fields.len(),
{
    let init = fields.drop_last();
    lemma_plan_len(init);
    if i == fields.len() - 1 {
        assert(fields.take(i) =~= init);
    } else {
        lemma_plan_at(init, i);
        assert(init.take(i) =~= fields.take(i));
        assert(init[i] == fields[i]);
    }
}

/// A one-line text or password field starts with exactly its default as
/// content; with its placeholder only when it has no default; empty when it
/// has neither.  Its input is masked exactly when it is a password.
pub proof fn law_edit_starts_with_default(fields: Seq<FieldSpec>, i: int)
    requires
        0 <= i < fields.len(),
        fields[i].field_type == FieldType::Text || fields[i].field_type == FieldType::Password,
        !fields[i].multiline,
    ensures
        plan_fold(fields).0.len() == fields.len(),
        plan_fold(fields).0[i].widget is Edit,
        plan_fold(fields).0[i].widget->Edit_secret == (fields[i].field_type == FieldType::Password),
        fields[i].default matches Some(d) ==> plan_fold(fields).0[i].widget->Edit_content == d,
        fields[i].default is None && fields[i].placeholder is Some ==> plan_fold(fields).0[i].widget->Edit_content
            == fields[i].placeholder.unwrap(),
        fields[i].default is None && fields[i].placeholder is None ==> plan_fold(fields).0[i].widget->Edit_content
            == Seq::<char>::empty(),
{
    lemma_plan_len(fields);
    lemma_plan_at(fields, i);
}

/// A multi-line text field starts with exactly its default, or empty when
/// it has none; a checkbox is a tick box, ticked as its default says.
pub proof fn law_area_and_box_start_from_default(fields: Seq<FieldSpec>, i: int)
    requires
        0 <= i < fields.len(),
    ensures
        plan_fold(fields).0.len() == fields.len(),
        fields[i].field_type == FieldType::Text && fields[i].multiline ==> plan_fold(fields).0[i].widget
            is TextArea,
        fields[i].field_type == FieldType::Text && fields[i].multiline && fields[i].default is Some
            ==> plan_fold(fields).0[i].widget->TextArea_content == fields[i].default.unwrap(),
        fields[i].field_type == FieldType::Text && fields[i].multiline && fields[i].default is None
            ==> plan_fold(fields).0[i].widget->TextArea_content == Seq::<char>::empty(),
        fields[i].field_type == FieldType::Checkbox ==> plan_fold(fields).0[i].widget is Checkbox,
        fields[i].field_type == FieldType::Checkbox ==> plan_fold(fields).0[i].widget->checked == checked_spec(
            fields[i].default,
        ),
{
    lemma_plan_len(fields);
    lemma_plan_at(fields, i);
}

/// What a field shows on the form screen.
pub enum Widget {
    Select {
        items: Vec<(String, String)>,
        selected: Option<usize>,
        options: Option<Vec<String>>,
    },
    Checkbox { checked: bool },
    TextArea { content: String },
    Edit { content: String, secret: bool },
}

/// How one field is laid out on the form screen: a section heading shown
/// before it, its name, its shown label, its input, and the field whose
/// selection changes its options.
pub struct FieldPlan {
    pub heading: Option<String>,
    pub name: String,
    pub label: String,
    pub widget: Widget,
    pub cascade_parent: Option<String>,
}

/// Item pairs by their characters.
pub open spec fn pairs_view(v: Seq<(String, String)>) -> Seq<(Seq<char>, Seq<char>)> {
    v.map_values(|p: (String, String)| (p.0@, p.1@))
}

impl View for Widget {
    type V = WidgetSpec;

    open spec fn view(&self) -> WidgetSpec {
        match self {
            Widget::Select { items, selected, options } => WidgetSpec::Select {
                items: pairs_view(items@),
                selected: match selected {
                    Some(i) => Some(*i as int),
                    None => None,
                },
                options: match options {
                    Some(v) => Some(list_view(v@)),
                    None => None,
                },
            },
            Widget::Checkbox { checked } => WidgetSpec::Checkbox { checked: *checked },
            Widget::TextArea { content } => WidgetSpec::TextArea { content: content@ },
            Widget::Edit { content, secret } => WidgetSpec::Edit { content: content@, secret: *secret },
        }
    }
}

impl View for FieldPlan {
    type V = PlanSpec;

    open spec fn view(&self) -> PlanSpec {
        PlanSpec {
            heading: opt_view(self.heading),
            name: self.name@,
            label: self.label@,
            widget: self.widget@,
            cascade_parent: opt_view(self.cascade_parent),
        }
    }
}

/// The items of a drop-down: each value, behind `- ` in a list.
pub fn select_items(values: &[String], is_list: bool) -> (r: Vec<(String, String)>)
    ensures
        pairs_view(r@) == select_items_spec(list_view(values@), is_list),
{
    let mut r: Vec<(String, String)> = Vec::new();
    let mut i: usize = 0;
    while i < values.len()
        invariant
            i <= values@.len(),
            pairs_view(r@) == select_items_spec(list_view(values@), is_list).take(i as int),
        decreases values@.len() - i,
    {
        let dash = vec!['-', ' '];
        assert(dash@ =~= seq!['-', ' ']);
        let shown = if is_list {
            string_of(&concat_chars(&dash, &chars_of(values[i].as_str())))
        } else {
            values[i].clone()
        };
        let ghost before = pairs_view(r@);
        let value = values[i].clone();
        let ghost want = select_items_spec(list_view(values@), is_list);
        assert(want[i as int] == (shown@, value@));
        r.push((shown, value));
        assert(pairs_view(r@) =~= before.push(want[i as int]));
        assert(pairs_view(r@) =~= want.take(i + 1));
        i = i + 1;
    }
    assert(select_items_spec(list_view(values@), is_list).take(i as int) =~= select_items_spec(
        list_view(values@),
        is_list,
    ));
    r
}

/// The first position of `value` among `items`.
pub fn position_of(items: &[String], value: &str) -> (r: Option<usize>)
    ensures
        match r {
            Some(i) => first_pos(list_view(items@), value@) == Some(i as int),
            None => first_pos(list_view(items@), value@) is None,
        },
{
    let v = chars_of(value);
    let ghost lv = list_view(items@);
    let mut i: usize = 0;
    while i < items.len()
        invariant
            lv == list_view(items@),
            v@ == value@,
            i <= items@.len(),
            forall|j: int| 0 <= j < i ==> lv[j] != value@,
        decreases items@.len() - i,
    {
        if chars_eq(&chars_of(items[i].as_str()), &v) {
            proof {
                assert(is_first_pos(lv, value@, i as int));
                let c = choose|c: int| is_first_pos(lv, value@, c);
                assert(is_first_pos(lv, value@, c));
                if c < i {
                } else if c > i {
                    assert(lv[i as int] != value@);
                }
            }
            return Some(i);
        }
        i = i + 1;
    }
    None
}

/// `s` with its ASCII capitals made small.
fn ascii_lower_chars(s: &[char]) -> (r: Vec<char>)
    ensures
        r@ == ascii_lower(s@),
{
    let mut r: Vec<char> = Vec::new();
    let mut i: usize = 0;
    while i < s.len()
        invariant
            i <= s@.len(),
            r@ == ascii_lower(s@).take(i as int),
        decreases s@.len() - i,
    {
        let c = s[i];
        let l = if 'A' <= c && c <= 'Z' {
            ((c as u32) + 32) as u8 as char
        } else {
            c
        };
        proof {
            if 'A' <= c && c <= 'Z' {
                assert((((c as u32) + 32) as u8 as char) == (((c as u32) + 32) as char));
            }
        }
        r.push(l);
        assert(r@ =~= ascii_lower(s@).take(i + 1));
        i = i + 1;
    }
    assert(ascii_lower(s@).take(i as int) =~= ascii_lower(s@));
    r
}

/// Whether a checkbox's default ticks it.
pub fn is_checked(default: &Option<String>) -> (b: bool)
    ensures
        b == checked_spec(opt_view(*default)),
{
    match default {
        Some(v) => {
            let l = ascii_lower_chars(&chars_of(v.as_str()));
            chars_eq(&l, &chars_of("true")) || chars_eq(&l, &chars_of("yes")) || chars_eq(
                &l,
                &chars_of("1"),
            ) || chars_eq(&l, &chars_of("on"))
        },
        None => false,
    }
}

/// Plans by their characters.
pub open spec fn plans_view(v: Seq<FieldPlan>) -> Seq<PlanSpec> {
    v.map_values(|p: FieldPlan| p@)
}

fn copy_strings(v: &Vec<String>) -> (r: Vec<String>)
    ensures
        list_view(r@) == list_view(v@),
{
    let mut r: Vec<String> = Vec::new();
    let mut i: usize = 0;
    while i < v.len()
        invariant
            i <= v@.len(),
            list_view(r@) == list_view(v@).take(i as int),
        decreases v@.len() - i,
    {
        let ghost before = list_view(r@);
        r.push(v[i].clone());
        assert(list_view(r@) =~= before.push(list_view(v@)[i as int]));
        assert(list_view(r@) =~= list_view(v@).take(i + 1));
        i = i + 1;
    }
    assert(list_view(v@).take(i as int) =~= list_view(v@));
    r
}

fn same_opt(a: &Option<String>, b: &Option<String>) -> (r: bool)
    ensures
        r == (opt_view(*a) == opt_view(*b)),
{
    match (a, b) {
        (Some(x), Some(y)) => chars_eq(&chars_of(x.as_str()), &chars_of(y.as_str())),
        (None, None) => true,
        _ => false,
    }
}

/// The options of a choice field, given the values the fields before it
/// start with.
fn available_options(field: &FormField, init: &StringMap<String>) -> (r: Option<Vec<String>>)
    ensures
        match r {
            Some(v) => available_spec(field@, crate::cli::values_view(init@)) == Some(list_view(v@)),
            None => available_spec(field@, crate::cli::values_view(init@)) is None,
        },
{
    match &field.depends_on {
        Some(dep) => {
            proof {
                lemma_get_map_vals(init@, dep@, |s: String| s@);
            }
            match init.get(dep.as_str()) {
                Some(pv) => match &field.depends_map {
                    Some(m) => {
                        proof {
                            lemma_get_map_vals(m@, pv@, |v: Vec<String>| list_view(v@));
                        }
                        match m.get(pv.as_str()) {
                            Some(vs) => Some(copy_strings(vs)),
                            None => None,
                        }
                    },
                    None => None,
                },
                None => None,
            }
        },
        None => match &field.values {
            Some(vs) => Some(copy_strings(vs)),
            None => None,
        },
    }
}

/// How each field is laid out on the form screen, in order: the section
/// headings, the labels, the inputs with what they start with, and the
/// values that the choice fields start with feeding the options of the
/// fields that depend on them.
pub fn plan_form(fields: &[FormField]) -> (r: Vec<FieldPlan>)
    ensures
        plans_view(r@) == plan_fold(crate::cli::specs_of(fields@)).0,
{
    let ghost specs = crate::cli::specs_of(fields@);
    let mut plans: Vec<FieldPlan> = Vec::new();
    let mut section: Option<String> = None;
    let mut init: StringMap<String> = StringMap::new();
    let mut i: usize = 0;
    assert(specs.take(0) =~= Seq::<FieldSpec>::empty());
    assert(plans_view(plans@) =~= Seq::<PlanSpec>::empty());
    assert(crate::cli::values_view(init@) =~= Seq::<(Seq<char>, Seq<char>)>::empty());
    while i < fields.len()
        invariant
            specs == crate::cli::specs_of(fields@),
            i <= fields@.len(),
            plan_fold(specs.take(i as int)) == (
                plans_view(plans@),
                opt_view(section),
                crate::cli::values_view(init@),
            ),
        decreases fields@.len() - i,
    {
        let field = &fields[i];
        let ghost f = field@;
        let ghost init0 = crate::cli::values_view(init@);
        assert(specs.take(i + 1).drop_last() =~= specs.take(i as int));
        assert(specs.take(i + 1).last() == f);
        let ghost step = plan_field(f, opt_view(section), init0);
        let heading = if !same_opt(&field.section, &section) {
            copy_opt(&field.section)
        } else {
            None
        };
        let name = field.name.clone();
        let plan = if field.field_type == FieldType::Choice || field.field_type == FieldType::List {
            let is_list = field.field_type == FieldType::List;
            let available = available_options(field, &init);
            let items = match &available {
                Some(vs) => select_items(vs, is_list),
                None => Vec::new(),
            };
            assert(pairs_view(items@) =~= match available_spec(f, init0) {
                Some(vs) => select_items_spec(vs, f.field_type == FieldType::List),
                None => Seq::<(Seq<char>, Seq<char>)>::empty(),
            });
            let idx: usize = match (&field.default, &available) {
                (Some(d), Some(vs)) => match position_of(vs, d.as_str()) {
                    Some(k) => k,
                    None => 0,
                },
                _ => 0,
            };
            assert(idx as int == default_index(f, available_spec(f, init0)));
            let selected = if items.len() > 0 {
                Some(
                    if idx < items.len() - 1 {
                        idx
                    } else {
                        items.len() - 1
                    },
                )
            } else {
                None
            };
            if let Some(vs) = &available {
                if idx < vs.len() {
                    proof {
                        lemma_insert_map_vals(init@, name@, vs@[idx as int], |s: String| s@);
                    }
                    init.insert(name.clone(), vs[idx].clone());
                }
            }
            let cascade_parent = if field.depends_on.is_some() && field.depends_map.is_some() {
                copy_opt(&field.depends_on)
            } else {
                None
            };
            FieldPlan {
                heading,
                name,
                label: display_label(field.label.as_str(), true),
                widget: Widget::Select { items, selected, options: available },
                cascade_parent,
            }
        } else {
            let widget = if field.field_type == FieldType::Checkbox {
                Widget::Checkbox { checked: is_checked(&field.default) }
            } else if field.multiline {
                Widget::TextArea {
                    content: match &field.default {
                        Some(d) => d.clone(),
                        None => String::new(),
                    },
                }
            } else {
                Widget::Edit {
                    content: match &field.default {
                        Some(d) => d.clone(),
                        None => match &field.placeholder {
                            Some(p) => p.clone(),
                            None => String::new(),
                        },
                    },
                    secret: field.field_type == FieldType::Password,
                }
            };
            FieldPlan {
                heading,
                name,
                label: display_label(field.label.as_str(), false),
                widget,
                cascade_parent: None,
            }
        };
        assert(plan@ == step.0);
        assert(crate::cli::values_view(init@) == step.1);
        let ghost before = plans_view(plans@);
        plans.push(plan);
        assert(plans_view(plans@) =~= before.push(step.0));
        section = copy_opt(&field.section);
        i = i + 1;
    }
    assert(specs.take(i as int) =~= specs);
    plans
}

/// What the search box of a drop-down shows: the count line and the
/// matching options, or `No matches`.
pub open spec fn search_box_spec(options: Seq<Seq<char>>, query: Seq<char>) -> (Seq<char>, Seq<Seq<char>>) {
    let found = filter_spec(options, query);
    (
        if found.len() == 1 {
            "1 match"@
        } else {
            crate::records::decimal(found.len()) + " matches"@
        },
        if found.len() == 0 {
            seq!["No matches"@]
        } else {
            found
        },
    )
}

/// What the search box of a drop-down shows for a query.
pub fn search_results(options: &[String], query: &str) -> (r: (String, Vec<String>))
    ensures
        (r.0@, list_view(r.1@)) == search_box_spec(list_view(options@), query@),
{
    let found = filter_options(options, query);
    let count = if found.len() == 1 {
        String::from_str("1 match")
    } else {
        string_of(&concat_chars(&decimal_chars(found.len()), &chars_of(" matches")))
    };
    if found.len() == 0 {
        let items = vec![String::from_str("No matches")];
        assert(list_view(items@) =~= seq!["No matches"@]);
        (count, items)
    } else {
        (count, found)
    }
}

/// The items a dependent drop-down shows once its parent selects
/// `selected`: each option for that value, indented by two spaces.
pub open spec fn cascade_spec(m: Seq<(Seq<char>, Seq<Seq<char>>)>, selected: Seq<char>) -> Seq<
    (Seq<char>, Seq<char>),
> {
    match assoc_get(m, selected) {
        Some(items) => items.map_values(|v: Seq<char>| (seq![' ', ' '] + v, v)),
        None => seq![],
    }
}

/// The items a dependent drop-down shows once its parent selects `selected`.
pub fn cascade_items(m: &StringMap<Vec<String>>, selected: &str) -> (r: Vec<(String, String)>)
    ensures
        pairs_view(r@) == cascade_spec(options_view(m@), selected@),
{
    proof {
        lemma_get_map_vals(m@, selected@, |v: Vec<String>| list_view(v@));
    }
    let mut r: Vec<(String, String)> = Vec::new();
    match m.get(selected) {
        Some(vs) => {
            let ghost want = list_view(vs@).map_values(|v: Seq<char>| (seq![' ', ' '] + v, v));
            let mut i: usize = 0;
            let pad = vec![' ', ' '];
            assert(pad@ =~= seq![' ', ' ']);
            while i < vs.len()
                invariant
                    want == list_view(vs@).map_values(|v: Seq<char>| (seq![' ', ' '] + v, v)),
                    pad@ == seq![' ', ' '],
                    i <= vs@.len(),
                    pairs_view(r@) == want.take(i as int),
                decreases vs@.len() - i,
            {
                let shown = string_of(&concat_chars(&pad, &chars_of(vs[i].as_str())));
                let value = vs[i].clone();
                assert(want[i as int] == (shown@, value@));
                let ghost before = pairs_view(r@);
                r.push((shown, value));
                assert(pairs_view(r@) =~= before.push(want[i as int]));
                assert(pairs_view(r@) =~= want.take(i + 1));
                i = i + 1;
            }
            assert(want.take(i as int) =~= want);
            r
        },
        None => {
            assert(pairs_view(r@) =~= Seq::<(Seq<char>, Seq<char>)>::empty());
            r
        },
    }
}

/// The form renderer that draws forms in the terminal.
#[derive(Debug, Clone, Copy)]
pub struct CursiveFormRenderer;

/// Whether a form can be drawn: there is a terminal, and `TERM` is set to
/// something other than `dumb`.
pub fn interactive_terminal(has_terminal: bool, term: Option<&str>) -> (b: bool)
    ensures
        b == (has_terminal && (term matches Some(t) && t@ != "dumb"@)),
{
    if !has_terminal {
        return false;
    }
    match term {
        Some(t) => !chars_eq(&chars_of(t), &chars_of("dumb")),
        None => false,
    }
}

} // verus!
