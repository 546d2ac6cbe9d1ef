use vstd::prelude::*;

verus! {

use crate::strutil::str_eq;

/// One registered page template: a rendering kind, a template name and the
/// template text itself.
pub struct TemplateEntry {
    pub kind: String,
    pub name: String,
    pub text: String,
}

/// Mathematical image of a [`TemplateEntry`].
pub struct TemplateEntryV {
    pub kind: Seq<char>,
    pub name: Seq<char>,
    pub text: Seq<char>,
}

impl View for TemplateEntry {
    type V = TemplateEntryV;

    open spec fn view(&self) -> TemplateEntryV {
        TemplateEntryV { kind: self.kind@, name: self.name@, text: self.text@ }
    }
}

impl DeepView for TemplateEntry {
    type V = TemplateEntryV;

    open spec fn deep_view(&self) -> TemplateEntryV {
        self.view()
    }
}

/// The registry of page templates the rendering layer consults.
pub struct TemplateRegistry {
    pub templates: Vec<TemplateEntry>,
}

impl TemplateRegistry {
    /// An empty registry.
    pub fn new() -> (r: TemplateRegistry)
        ensures
            r.templates.deep_view() == Seq::<TemplateEntryV>::empty(),
    {
        let r = TemplateRegistry { templates: Vec::new() };
        proof {
            assert(r.templates.deep_view() =~= Seq::<TemplateEntryV>::empty());
        }
        r
    }

    /// Register one template under a kind and a name.
    pub fn add_template(&mut self, kind: &str, name: &str, text: String)
        ensures
            final(self).templates.deep_view() == old(self).templates.deep_view().push(
                TemplateEntryV { kind: kind@, name: name@, text: text@ },
            ),
    {
        let ghost pre = self.templates.deep_view();
        let entry = TemplateEntry {
            kind: String::from_str(kind),
            name: String::from_str(name),
            text,
        };
        self.templates.push(entry);
        proof {
            assert(self.templates.deep_view() =~= pre.push(
                TemplateEntryV { kind: kind@, name: name@, text: text@ },
            ));
        }
    }

    /// The text of the first template registered under `kind` and `name`.
    pub fn get_template(&self, kind: &str, name: &str) -> (r: Option<&String>)
        ensures
            match r {
                Some(t) => exists|i: int|
                    0 <= i < self.templates.deep_view().len() && {
                        let e = #[trigger] self.templates.deep_view()[i];
                        e.kind == kind@ && e.name == name@ && e.text == t@
                    },
                None => forall|i: int|
                    0 <= i < self.templates.deep_view().len() ==> !{
                        let e = #[trigger] self.templates.deep_view()[i];
                        e.kind == kind@ && e.name == name@
                    },
            },
    {
        let n = self.templates.len();
        let mut i: usize = 0;
        while i < n
            invariant
                n == self.templates.deep_view().len(),
                i <= n,
                forall|j: int|
                    0 <= j < i ==> !{
                        let e = #[trigger] self.templates.deep_view()[j];
                        e.kind == kind@ && e.name == name@
                    },
            decreases n - i,
        {
            if str_eq(self.templates[i].kind.as_str(), kind) && str_eq(
                self.templates[i].name.as_str(),
                name,
            ) {
                proof {
                    let e = self.templates.deep_view()[i as int];
                    assert(e.kind == kind@ && e.name == name@);
                }
                return Some(&self.templates[i].text);
            }
            i = i + 1;
        }
        None
    }
}

/// Register the built-in page templates, as the original did at startup: the
/// detail page, the map page and the client bootstrap script, all under the
/// rendering kind "http". The caller supplies the template texts, which live
/// with the static assets.
pub fn init_jinja_tpl(
    reg: &mut TemplateRegistry,
    detail_html: String,
    map_html: String,
    client_init_sh: String,
)
    ensures
        final(reg).templates.deep_view() == old(reg).templates.deep_view().push(
            TemplateEntryV { kind: "http"@, name: "detail"@, text: detail_html@ },
        ).push(TemplateEntryV { kind: "http"@, name: "map"@, text: map_html@ }).push(
            TemplateEntryV { kind: "http"@, name: "client-init"@, text: client_init_sh@ },
        ),
{
    reg.add_template("http", "detail", detail_html);
    reg.add_template("http", "map", map_html);
    reg.add_template("http", "client-init", client_init_sh);
}

} // verus!
