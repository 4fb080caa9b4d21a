//! Match files: the triggers, their replacements, forms and variables.
//!
//! The types here are what an Espanso-compatible YAML match file holds once
//! it has been read; parsing the YAML text is done where the files are read.
use vstd::prelude::*;
use crate::strmap::StringMap;
use crate::yaml::{copy_value, same_node, YamlValue};

verus! {

/// A match file: its matches and its free-form parameters.
#[derive(Clone, Debug)]
pub struct Config {
    pub matches: Vec<MatchFile>,
    pub params: Option<YamlValue>,
}

/// One match: its triggers and what it expands to.
#[derive(Debug)]
pub struct MatchFile {
    pub trigger: Option<String>,
    pub triggers: Option<Vec<String>>,
    pub replace: Option<String>,
    pub form: Option<String>,
    pub form_fields: Option<StringMap<FieldConfig>>,
    pub vars: Option<Vec<VariableDef>>,
    pub force_mode: Option<String>,
    pub propagate_case: Option<bool>,
    pub word: Option<bool>,
    pub image_path: Option<String>,
    pub markdown: Option<String>,
    pub html: Option<String>,
    pub search_label: Option<String>,
}

/// The configuration of one form field.
#[derive(Debug)]
pub struct FieldConfig {
    pub field_type: Option<String>,
    pub multiline: Option<bool>,
    pub default: Option<String>,
    pub placeholder: Option<String>,
    pub values: Option<YamlValue>,
    pub trim_string_values: Option<bool>,
    pub depends_on: Option<String>,
}

/// A variable of a match: its name, its kind and its parameters.
#[derive(Debug)]
pub struct VariableDef {
    pub name: String,
    pub var_type: String,
    pub params: Option<YamlValue>,
}

/// Why a match file could not be used.
#[derive(Debug)]
pub enum Error {
    Io(String),
    Parse(String),
    Match(String),
    Render(String),
    Inject(String),
    Detect(String),
    Ui(String),
}

/// The characters of an optional string, as a list of zero or one items.
pub open spec fn opt_item(t: Option<String>) -> Seq<Seq<char>> {
    match t {
        Some(s) => seq![s@],
        None => seq![],
    }
}

/// The characters of each string of a list.
pub open spec fn strings_view(v: Seq<String>) -> Seq<Seq<char>> {
    v.map_values(|s: String| s@)
}

/// The triggers of a match: `trigger` first, then each of `triggers`.
pub open spec fn trigger_list(m: MatchFile) -> Seq<Seq<char>> {
    opt_item(m.trigger) + match m.triggers {
        Some(v) => strings_view(v@),
        None => Seq::<Seq<char>>::empty(),
    }
}

/// The characters of an optional string.
pub open spec fn opt_view(t: Option<String>) -> Option<Seq<char>> {
    match t {
        Some(s) => Some(s@),
        None => None,
    }
}

/// The message of an error, before its detail.
pub open spec fn error_prefix(e: Error) -> Seq<char> {
    match e {
        Error::Io(_) => "IO error: "@,
        Error::Parse(_) => "Parse error: "@,
        Error::Match(_) => "Match error: "@,
        Error::Render(_) => "Render error: "@,
        Error::Inject(_) => "Inject error: "@,
        Error::Detect(_) => "Detect error: "@,
        Error::Ui(_) => "UI error: "@,
    }
}

/// The detail that an error carries.
pub open spec fn error_detail(e: Error) -> Seq<char> {
    match e {
        Error::Io(d) => d@,
        Error::Parse(d) => d@,
        Error::Match(d) => d@,
        Error::Render(d) => d@,
        Error::Inject(d) => d@,
        Error::Detect(d) => d@,
        Error::Ui(d) => d@,
    }
}

impl Error {
    /// The error's message, such as `Parse error: <detail>`.
    pub fn message(&self) -> (m: String)
        ensures
            m@ == error_prefix(*self) + error_detail(*self),
    {
        let (prefix, detail) = match self {
            Error::Io(d) => (String::from_str("IO error: "), d),
            Error::Parse(d) => (String::from_str("Parse error: "), d),
            Error::Match(d) => (String::from_str("Match error: "), d),
            Error::Render(d) => (String::from_str("Render error: "), d),
            Error::Inject(d) => (String::from_str("Inject error: "), d),
            Error::Detect(d) => (String::from_str("Detect error: "), d),
            Error::Ui(d) => (String::from_str("UI error: "), d),
        };
        let mut m = prefix;
        m.append(detail.as_str());
        m
    }
}

impl MatchFile {
    /// The triggers of this match: `trigger` first, then each of `triggers`.
    pub fn triggers(&self) -> (t: Vec<&str>)
        ensures
            t@.len() == trigger_list(*self).len(),
            forall|i: int| 0 <= i < t@.len() ==> t@[i]@ == trigger_list(*self)[i],
    {
        let mut t: Vec<&str> = Vec::new();
        if let Some(trigger) = &self.trigger {
            t.push(trigger.as_str());
        }
        let ghost first = opt_item(self.trigger);
        assert(t@.len() == first.len());
        if let Some(triggers) = &self.triggers {
            let mut i: usize = 0;
            while i < triggers.len()
                invariant
                    self.triggers == Some(*triggers),
                    first == opt_item(self.trigger),
                    i <= triggers@.len(),
                    t@.len() == first.len() + i,
                    forall|j: int| 0 <= j < first.len() ==> t@[j]@ == first[j],
                    forall|j: int| 0 <= j < i ==> t@[first.len() + j]@ == triggers@[j]@,
                decreases triggers@.len() - i,
            {
                t.push(triggers[i].as_str());
                i = i + 1;
            }
        }
        t
    }

    /// Whether this match expands through a form.
    pub fn has_form(&self) -> (b: bool)
        ensures
            b == (self.form is Some),
    {
        self.form.is_some()
    }
}

/// A copy of an optional string.
pub fn copy_opt(o: &Option<String>) -> (r: Option<String>)
    ensures
        r == *o,
{
    match o {
        Some(s) => Some(s.clone()),
        None => None,
    }
}

/// Two optional nodes hold the same YAML.
pub open spec fn same_opt_node(a: Option<YamlValue>, b: Option<YamlValue>) -> bool {
    match a {
        Some(x) => b matches Some(y) && same_node(x, y),
        None => b is None,
    }
}

/// A copy of an optional node.
pub fn copy_opt_node(o: &Option<YamlValue>) -> (r: Option<YamlValue>)
    ensures
        same_opt_node(*o, r),
{
    match o {
        Some(v) => Some(copy_value(v)),
        None => None,
    }
}

/// Two field configurations say the same.
pub open spec fn same_field_config(a: FieldConfig, b: FieldConfig) -> bool {
    &&& a.field_type == b.field_type
    &&& a.multiline == b.multiline
    &&& a.default == b.default
    &&& a.placeholder == b.placeholder
    &&& same_opt_node(a.values, b.values)
    &&& a.trim_string_values == b.trim_string_values
    &&& a.depends_on == b.depends_on
}

impl Clone for FieldConfig {
    fn clone(&self) -> (r: Self)
        ensures
            same_field_config(*self, r),
    {
        FieldConfig {
            field_type: copy_opt(&self.field_type),
            multiline: self.multiline,
            default: copy_opt(&self.default),
            placeholder: copy_opt(&self.placeholder),
            values: copy_opt_node(&self.values),
            trim_string_values: self.trim_string_values,
            depends_on: copy_opt(&self.depends_on),
        }
    }
}

/// Two lists of field configurations by name say the same: the same
/// names in the same order, with configurations that say the same.
pub open spec fn same_field_entries(a: Seq<(Seq<char>, FieldConfig)>, b: Seq<(Seq<char>, FieldConfig)>) -> bool {
    &&& a.len() == b.len()
    &&& forall|i: int| 0 <= i < a.len() ==> #[trigger] a[i].0 == b[i].0 && same_field_config(a[i].1, b[i].1)
}

/// Two optional field maps say the same.
pub open spec fn same_form_fields(a: Option<StringMap<FieldConfig>>, b: Option<StringMap<FieldConfig>>) -> bool {
    match a {
        Some(x) => b matches Some(y) && same_field_entries(x@, y@),
        None => b is None,
    }
}

/// A copy of a map of field configurations.
pub fn copy_field_map(m: &StringMap<FieldConfig>) -> (r: StringMap<FieldConfig>)
    ensures
        same_field_entries(m@, r@),
{
    let mut r: StringMap<FieldConfig> = StringMap::new();
    let mut i: usize = 0;
    while i < m.len()
        invariant
            i <= m@.len(),
            r@.len() == i,
            forall|j: int| 0 <= j < i ==> #[trigger] m@[j].0 == r@[j].0 && same_field_config(m@[j].1, r@[j].1),
        decreases m@.len() - i,
    {
        let (k, v) = m.entry(i);
        proof {
            assert forall|j: int| 0 <= j < r@.len() implies r@[j].0 != k@ by {
                assert(m@[j].0 == r@[j].0);
            }
            crate::strmap::lemma_key_absent(r@, k@);
        }
        r.push_new(k.clone(), v.clone());
        i = i + 1;
    }
    r
}

/// A copy of an optional map of field configurations.
pub fn copy_form_fields(o: &Option<StringMap<FieldConfig>>) -> (r: Option<StringMap<FieldConfig>>)
    ensures
        same_form_fields(*o, r),
{
    match o {
        Some(m) => Some(copy_field_map(m)),
        None => None,
    }
}

/// Two variables say the same.
pub open spec fn same_var(a: VariableDef, b: VariableDef) -> bool {
    &&& a.name == b.name
    &&& a.var_type == b.var_type
    &&& same_opt_node(a.params, b.params)
}

impl Clone for VariableDef {
    fn clone(&self) -> (r: Self)
        ensures
            same_var(*self, r),
    {
        VariableDef {
            name: self.name.clone(),
            var_type: self.var_type.clone(),
            params: copy_opt_node(&self.params),
        }
    }
}

/// Two optional variable lists say the same.
pub open spec fn same_vars(a: Option<Vec<VariableDef>>, b: Option<Vec<VariableDef>>) -> bool {
    match a {
        Some(x) => b matches Some(y) && x@.len() == y@.len() && forall|i: int|
            0 <= i < x@.len() ==> #[trigger] same_var(x@[i], y@[i]),
        None => b is None,
    }
}

/// A copy of an optional variable list.
pub fn copy_vars(o: &Option<Vec<VariableDef>>) -> (r: Option<Vec<VariableDef>>)
    ensures
        same_vars(*o, r),
{
    match o {
        Some(vs) => {
            let mut out: Vec<VariableDef> = Vec::new();
            let mut i: usize = 0;
            while i < vs.len()
                invariant
                    i <= vs@.len(),
                    out@.len() == i,
                    forall|j: int| 0 <= j < i ==> #[trigger] same_var(vs@[j], out@[j]),
                decreases vs@.len() - i,
            {
                out.push(vs[i].clone());
                i = i + 1;
            }
            Some(out)
        },
        None => None,
    }
}

/// The characters of an optional list of strings.
pub open spec fn opt_strings(o: Option<Vec<String>>) -> Option<Seq<Seq<char>>> {
    match o {
        Some(v) => Some(strings_view(v@)),
        None => None,
    }
}

/// A copy of an optional list of strings.
fn copy_opt_strings(o: &Option<Vec<String>>) -> (r: Option<Vec<String>>)
    ensures
        opt_strings(r) == opt_strings(*o),
{
    match o {
        Some(v) => {
            let mut out: Vec<String> = Vec::new();
            let mut i: usize = 0;
            while i < v.len()
                invariant
                    i <= v@.len(),
                    strings_view(out@) == strings_view(v@).take(i as int),
                decreases v@.len() - i,
            {
                let ghost before = out@;
                out.push(v[i].clone());
                assert(strings_view(out@) =~= strings_view(before).push(v@[i as int]@));
                assert(strings_view(v@).take(i + 1) =~= strings_view(v@).take(i as int).push(v@[i as int]@));
                i = i + 1;
            }
            assert(strings_view(v@).take(i as int) =~= strings_view(v@));
            Some(out)
        },
        None => None,
    }
}

/// Two matches say the same.
pub open spec fn same_match(a: MatchFile, b: MatchFile) -> bool {
    &&& a.trigger == b.trigger
    &&& opt_strings(a.triggers) == opt_strings(b.triggers)
    &&& a.replace == b.replace
    &&& a.form == b.form
    &&& same_form_fields(a.form_fields, b.form_fields)
    &&& same_vars(a.vars, b.vars)
    &&& a.force_mode == b.force_mode
    &&& a.propagate_case == b.propagate_case
    &&& a.word == b.word
    &&& a.image_path == b.image_path
    &&& a.markdown == b.markdown
    &&& a.html == b.html
    &&& a.search_label == b.search_label
}

impl Clone for MatchFile {
    fn clone(&self) -> (r: Self)
        ensures
            same_match(*self, r),
    {
        MatchFile {
            trigger: copy_opt(&self.trigger),
            triggers: copy_opt_strings(&self.triggers),
            replace: copy_opt(&self.replace),
            form: copy_opt(&self.form),
            form_fields: copy_form_fields(&self.form_fields),
            vars: copy_vars(&self.vars),
            force_mode: copy_opt(&self.force_mode),
            propagate_case: self.propagate_case,
            word: self.word,
            image_path: copy_opt(&self.image_path),
            markdown: copy_opt(&self.markdown),
            html: copy_opt(&self.html),
            search_label: copy_opt(&self.search_label),
        }
    }
}

} // verus!
