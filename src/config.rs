//! The template configuration (`bowl.toml`) as plain values.
use vstd::prelude::*;

verus! {

/// The version a new template starts at.
pub const DEFAULT_TEMPLATE_VERSION: &'static str = "0.0.1";

/// The readme path used when the configuration names none.
pub const DEFAULT_README: &'static str = "./bowl.md";

/// bowl.toml config
pub struct Config {
    pub template: TemplateInfo,
    pub options: Options,
}

/// Configuration of bowl template
pub struct TemplateInfo {
    pub name: String,
    pub version: String,
    pub source: Option<String>,
    pub description: Option<String>,
}

/// Options that shape what a template bundles.
pub struct Options {
    pub ignore: Option<Vec<String>>,
    pub readme: String,
}

impl Config {
    /// Create default config from template name
    pub fn new_default(template_name: String) -> (r: Self)
        ensures
            r.template.name@ == template_name@,
            r.template.version@ == DEFAULT_TEMPLATE_VERSION@,
            r.template.source is None,
            r.template.description is None,
            r.options.ignore is None,
            r.options.readme@ == DEFAULT_README@,
    {
        Config {
            template: TemplateInfo {
                name: template_name,
                version: DEFAULT_TEMPLATE_VERSION.to_owned(),
                source: None,
                description: None,
            },
            options: Options { ignore: None, readme: default_readme() },
        }
    }
}

/// The readme path of a configuration that names none.
pub fn default_readme() -> (r: String)
    ensures
        r@ == DEFAULT_README@,
{
    DEFAULT_README.to_owned()
}

} // verus!
