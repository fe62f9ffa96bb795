//! Templates: named handlebars templates that a decoration renders a
//! linkage through.
use vstd::prelude::*;

use crate::linker::{linkage_json, Linkage};
use crate::query::{check_template, template_compiles};
use handlebars::TemplateError as HbTemplateError;

verus! {

/// What handlebars renders `template` to, without escaping, over the JSON
/// document `data`; none where rendering fails.
pub uninterp spec fn template_output(template: Seq<char>, data: Seq<char>) -> Option<Seq<char>>;

/// Relies on `serde_json::from_str` for the JSON document `data` and on
/// `handlebars::Handlebars::render_template`, on a new registry whose
/// escape function is `handlebars::no_escape`, with that document as the
/// context.
#[verifier::external_body]
fn render_json(template: &str, data: &str) -> (r: Result<String, handlebars::RenderError>)
    ensures
        match r {
            Ok(s) => template_output(template@, data@) == Some(s@),
            Err(_) => template_output(template@, data@) is None,
        },
{
    let value: serde_json::Value = serde_json::from_str(data)
        .map_err(handlebars::RenderErrorReason::SerdeError)?;
    let mut hb = handlebars::Handlebars::new();
    hb.register_escape_fn(handlebars::no_escape);
    hb.render_template(template, &value)
}

/// A compiled template.
#[derive(Debug)]
pub struct Template {
    text: String,
}

/// Why a template could not be registered or rendered.
#[derive(Debug)]
pub enum TemplateError {
    Parse(HbTemplateError),
    Render(handlebars::RenderError),
    NameTaken(String),
    TemplateMissing(String),
}

impl Template {
    /// The template text.
    pub closed spec fn text(&self) -> Seq<char> {
        self.text@
    }

    /// The template `template`; values are rendered without escaping.
    /// Fails exactly where it is not a well-formed template.
    pub fn new(template: &str) -> (r: Result<Template, TemplateError>)
        ensures
            r is Ok <==> template_compiles(template@),
            r matches Ok(t) ==> t.text() == template@,
            r matches Err(e) ==> e is Parse,
    {
        match check_template(template) {
            Ok(()) => Ok(Template { text: template.to_owned() }),
            Err(e) => Err(TemplateError::Parse(e)),
        }
    }

    /// Renders the template with `linkage` as its data (see
    /// `linkage_json`).
    pub fn render(&self, linkage: &Linkage) -> (r: Result<String, TemplateError>)
        ensures
            match r {
                Ok(s) => template_output(self.text(), linkage_json(linkage)) == Some(s@),
                Err(e) => e is Render && template_output(self.text(), linkage_json(linkage)) is None,
            },
    {
        let data = linkage.template_data();
        match render_json(self.text.as_str(), data.as_str()) {
            Ok(s) => Ok(s),
            Err(e) => Err(TemplateError::Render(e)),
        }
    }
}

/// Templates by name; each name at most once.
#[derive(Debug)]
pub struct TemplateList {
    templates: Vec<(String, Template)>,
}

impl TemplateList {
    /// The names that templates are registered under.
    pub closed spec fn names(&self) -> Set<Seq<char>> {
        Set::new(|n: Seq<char>| exists|i: int| 0 <= i < self.templates@.len() && self.templates@[i].0@ == n)
    }

    /// The registered names and template texts, in the order of
    /// registration.
    pub closed spec fn entries(&self) -> Seq<(Seq<char>, Seq<char>)> {
        self.templates@.map_values(|e: (String, Template)| (e.0@, e.1.text()))
    }

    /// The text of the template registered under `name`: the first one
    /// with that name.
    pub closed spec fn text_of(&self, name: Seq<char>) -> Seq<char> {
        self.templates@[choose|i: int|
            0 <= i < self.templates@.len() && self.templates@[i].0@ == name && forall|j: int|
                0 <= j < i ==> self.templates@[j].0@ != name].1.text()
    }

    /// No templates.
    pub fn new() -> (r: TemplateList)
        ensures
            r.names() == Set::<Seq<char>>::empty(),
    {
        let r = TemplateList { templates: Vec::new() };
        assert(r.names() =~= Set::<Seq<char>>::empty());
        r
    }

    fn position(&self, name: &str) -> (r: Option<usize>)
        ensures
            match r {
                Some(i) => i < self.templates@.len() && self.templates@[i as int].0@ == name@
                    && forall|j: int| 0 <= j < i ==> self.templates@[j].0@ != name@,
                None => !self.names().contains(name@),
            },
    {
        let key = name.to_owned();
        let mut i: usize = 0;
        while i < self.templates.len()
            invariant
                0 <= i <= self.templates@.len(),
                key@ == name@,
                forall|j: int| 0 <= j < i ==> self.templates@[j].0@ != name@,
            decreases self.templates@.len() - i,
        {
            if self.templates[i].0 == key {
                return Some(i);
            }
            i = i + 1;
        }
        None
    }

    /// Compiles `template` and registers it under `name`. Fails where the
    /// name is taken (nothing changes) or the template is not well formed.
    pub fn create(&mut self, name: &str, template: &str) -> (r: Result<(), TemplateError>)
        ensures
            old(self).names().contains(name@) ==> (r matches Err(TemplateError::NameTaken(n))
                && n@ == name@),
            r is Ok ==> final(self).names() == old(self).names().insert(name@),
            r is Ok ==> final(self).entries() == old(self).entries().push((name@, template@)),
            r is Ok <==> (!old(self).names().contains(name@) && template_compiles(template@)),
            !old(self).names().contains(name@) && !template_compiles(template@) ==> (r matches Err(
                TemplateError::Parse(_),
            )),
            r is Err ==> *final(self) == *old(self),
    {
        if self.position(name).is_some() {
            return Err(TemplateError::NameTaken(name.to_owned()));
        }
        let t = match Template::new(template) {
            Ok(t) => t,
            Err(e) => {
                return Err(e);
            },
        };
        let ghost before = self.templates@;
        self.templates.push((name.to_owned(), t));
        proof {
            assert forall|n: Seq<char>| #[trigger] self.names().contains(n) <==> old(self).names().insert(
                name@,
            ).contains(n) by {
                if self.names().contains(n) {
                    let i = choose|i: int| 0 <= i < self.templates@.len() && self.templates@[i].0@ == n;
                    if i < before.len() {
                        assert(before[i] == self.templates@[i]);
                    }
                }
                if old(self).names().contains(n) {
                    let i = choose|i: int| 0 <= i < before.len() && before[i].0@ == n;
                    assert(self.templates@[i] == before[i]);
                }
                if n == name@ {
                    assert(self.templates@[before.len() as int].0@ == n);
                }
            }
            assert(self.names() =~= old(self).names().insert(name@));
            assert(self.entries() =~= old(self).entries().push((name@, template@)));
        }
        Ok(())
    }

    /// Renders the template registered under `name` with `linkage` as its
    /// data. Fails where no template has that name, or rendering fails.
    pub fn render(&self, name: &str, linkage: &Linkage) -> (r: Result<String, TemplateError>)
        ensures
            !self.names().contains(name@) <==> (r matches Err(TemplateError::TemplateMissing(n))
                && n@ == name@),
            self.names().contains(name@) ==> match r {
                Ok(s) => template_output(self.text_of(name@), linkage_json(linkage)) == Some(s@),
                Err(e) => e is Render && template_output(self.text_of(name@), linkage_json(linkage))
                    is None,
            },
    {
        match self.position(name) {
            Some(i) => {
                assert(self.names().contains(name@));
                proof {
                    let c = choose|c: int|
                        0 <= c < self.templates@.len() && self.templates@[c].0@ == name@ && forall|j: int|
                            0 <= j < c ==> self.templates@[j].0@ != name@;
                    assert(c == i);
                }
                self.templates[i].1.render(linkage)
            },
            None => Err(TemplateError::TemplateMissing(name.to_owned())),
        }
    }
}

} // verus!
