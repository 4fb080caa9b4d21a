//! Templates: replacement text with `{{name}}` variables, and form layouts
//! with `[[name]]` fields.
use vstd::prelude::*;
use crate::cli::values_view;
use crate::config::FieldConfig;
use crate::strmap::StringMap;
use crate::text::{
    byte_len, chars_of, concat_chars, contains, find, find_chars, lemma_replace_absent, replace_all, replace_chars, str_byte_len,
    string_of, copy_range,
};

verus! {

/// `s` with each placeholder `open + name + close` replaced by its value,
/// one variable after the other in the order of `vars`.
pub open spec fn fill(
    s: Seq<char>,
    vars: Seq<(Seq<char>, Seq<char>)>,
    open: Seq<char>,
    close: Seq<char>,
) -> Seq<char>
    decreases vars.len(),
{
    if vars.len() == 0 {
        s
    } else {
        replace_all(
            fill(s, vars.drop_last(), open, close),
            open + vars.last().0 + close,
            vars.last().1,
        )
    }
}

/// The opening of a template variable.
pub open spec fn var_open() -> Seq<char> {
    seq!['{', '{']
}

/// The closing of a template variable.
pub open spec fn var_close() -> Seq<char> {
    seq!['}', '}']
}

/// The opening of a form field.
pub open spec fn field_open() -> Seq<char> {
    seq!['[', '[']
}

/// The closing of a form field.
pub open spec fn field_close() -> Seq<char> {
    seq![']', ']']
}

/// The marker of where the cursor goes after an expansion.
pub open spec fn cursor_marker() -> Seq<char> {
    seq!['$', '|', '$']
}

/// Text that holds no placeholder of any variable is filled to itself.
pub proof fn law_fill_without_placeholders(
    s: Seq<char>,
    vars: Seq<(Seq<char>, Seq<char>)>,
    open: Seq<char>,
    close: Seq<char>,
)
    requires
        open.len() > 0,
        forall|k: int| 0 <= k < vars.len() ==> !contains(s, open + #[trigger] vars[k].0 + close),
    ensures
        fill(s, vars, open, close) == s,
    decreases vars.len(),
{
    if vars.len() > 0 {
        let init = vars.drop_last();
        assert forall|k: int| 0 <= k < init.len() implies !contains(s, open + #[trigger] init[k].0 + close) by {
            assert(init[k] == vars[k]);
        }
        law_fill_without_placeholders(s, init, open, close);
        let last = vars[vars.len() - 1];
        assert(!contains(s, open + last.0 + close));
        lemma_replace_absent(s, open + vars.last().0 + close, vars.last().1);
    }
}

/// Replaces each placeholder `open + name + close` by the value of `name`.
fn fill_placeholders(s: &str, vars: &StringMap<String>, open: &Vec<char>, close: &Vec<char>) -> (r: String)
    requires
        open@.len() > 0,
    ensures
        r@ == fill(s@, values_view(vars@), open@, close@),
{
    let mut result = chars_of(s);
    let ghost vv = values_view(vars@);
    let mut i: usize = 0;
    assert(vv.take(0) =~= Seq::<(Seq<char>, Seq<char>)>::empty());
    while i < vars.len()
        invariant
            open@.len() > 0,
            vv == values_view(vars@),
            i <= vars@.len(),
            result@ == fill(s@, vv.take(i as int), open@, close@),
        decreases vars@.len() - i,
    {
        let (key, value) = vars.entry(i);
        assert(vv.take(i + 1).drop_last() =~= vv.take(i as int));
        assert(vv.take(i + 1).last() == (key@, value@));
        let placeholder = concat_chars(&concat_chars(open, &chars_of(key.as_str())), close);
        result = replace_chars(&result, &placeholder, &chars_of(value.as_str()));
        i = i + 1;
    }
    assert(vv.take(i as int) =~= vv);
    string_of(&result)
}

/// A replacement text with `{{name}}` variables.
pub struct Template {
    source: String,
}

impl Template {
    /// The text of the template.
    pub closed spec fn text(&self) -> Seq<char> {
        self.source@
    }

    /// A template over `source`.
    pub fn new(source: &str) -> (t: Self)
        ensures
            t.text() == source@,
    {
        Template { source: String::from_str(source) }
    }

    /// The template with each `{{name}}` replaced by the value of `name`,
    /// variable after variable in the order of `vars`.
    pub fn render(&self, vars: &StringMap<String>) -> (r: String)
        ensures
            r@ == fill(self.text(), values_view(vars@), var_open(), var_close()),
    {
        let open = vec!['{', '{'];
        let close = vec!['}', '}'];
        assert(open@ =~= var_open());
        assert(close@ =~= var_close());
        fill_placeholders(self.source.as_str(), vars, &open, &close)
    }

    /// The byte offset of the first `$|$` marker, if the template has one.
    pub fn cursor_position(&self) -> (r: Option<usize>)
        ensures
            r == match find(self.text(), cursor_marker()) {
                Some(i) => Some(byte_len(self.text().take(i as int)) as usize),
                None => None,
            },
    {
        let src = chars_of(self.source.as_str());
        let marker = vec!['$', '|', '$'];
        assert(marker@ =~= cursor_marker());
        proof {
            crate::text::lemma_find_from_range(src@, marker@, 0);
        }
        match find_chars(&src, &marker, 0) {
            Some(i) => {
                let before = string_of(&copy_range(&src, 0, i));
                assert(before@ =~= self.text().take(i as int));
                Some(str_byte_len(before.as_str()))
            },
            None => None,
        }
    }
}

/// The expansion of form layouts.
pub struct FormExtension;

impl FormExtension {
    /// The layout with each `[[name]]` replaced by the form's value of
    /// `name`, value after value in the order of `values`.
    pub fn render_form(
        layout: &str,
        _fields: &StringMap<FieldConfig>,
        values: &StringMap<String>,
    ) -> (r: String)
        ensures
            r@ == fill(layout@, values_view(values@), field_open(), field_close()),
    {
        let open = vec!['[', '['];
        let close = vec![']', ']'];
        assert(open@ =~= field_open());
        assert(close@ =~= field_close());
        fill_placeholders(layout, values, &open, &close)
    }
}

} // verus!
