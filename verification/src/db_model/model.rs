//! Models: the fields and card templates of a kind of note.

use vstd::prelude::*;
use vstd::string::StringExecFns;

verus! {

/// The kind of a model.
#[derive(Debug, Clone, Copy, PartialEq, Eq, Structural)]
pub enum ModelType {
    FrontBack,
    Cloze,
}

/// A field of a model.
#[derive(Debug, Clone, PartialEq)]
pub struct ModelField {
    /// The font that the field is shown in.
    pub font: String,
    /// Not in use.
    pub media: Vec<String>,
    pub name: String,
    pub ordinal: usize,
    pub right_to_left: bool,
    pub font_size: usize,
    /// Whether the field keeps the value that was entered last.
    pub sticky: bool,
}

/// The font size of a new field.
pub const DEFAULT_FONT_SIZE: usize = 20;

impl ModelField {
    /// A field with the given name and ordinal, shown in Arial of size 20
    /// from left to right, with no media and not sticky.
    pub fn new(name: String, ordinal: usize) -> (field: ModelField)
        ensures
            field.font@ == "Arial"@,
            field.media@ == Seq::<String>::empty(),
            field.name == name,
            field.ordinal == ordinal,
            !field.right_to_left,
            field.font_size == DEFAULT_FONT_SIZE,
            !field.sticky,
    {
        ModelField {
            font: String::from_str("Arial"),
            media: Vec::new(),
            name,
            ordinal,
            right_to_left: false,
            font_size: DEFAULT_FONT_SIZE,
            sticky: false,
        }
    }
}

/// A card template of a model.
#[derive(Debug, Clone, PartialEq)]
pub struct ModelTemplate {
    pub answer_template: String,
    pub browser_answer_template: String,
    pub browser_question_format: String,
    pub default_deck_id: Option<u64>,
    pub name: String,
    pub question_format: String,
}

impl ModelTemplate {
    /// A template with the given name, question and answer, with empty
    /// browser formats and no deck of its own.
    pub fn new(name: String, question_format: String, answer_template: String) -> (template:
        ModelTemplate)
        ensures
            template.answer_template == answer_template,
            template.browser_answer_template@ == Seq::<char>::empty(),
            template.browser_question_format@ == Seq::<char>::empty(),
            template.default_deck_id is None,
            template.name == name,
            template.question_format == question_format,
    {
        ModelTemplate {
            answer_template,
            browser_answer_template: String::new(),
            browser_question_format: String::new(),
            default_deck_id: None,
            name,
            question_format,
        }
    }
}

/// A model as the database holds it.
#[derive(Debug, Clone, PartialEq)]
pub struct Model {
    /// The style sheet that the templates share.
    pub css: String,
    pub default_deck_id: u64,
    pub fields: Vec<ModelField>,
    pub model_id: u64,
    pub latex_post: String,
    pub latex_pre: String,
    pub modification: i64,
    pub name: String,
    /// Not in use in current clients.
    pub req: Vec<(usize, String, Vec<usize>)>,
    pub sort_field_index: usize,
    pub tags: Vec<String>,
    pub templates: Vec<ModelTemplate>,
    pub model_type: ModelType,
    pub update_seq_number: i64,
    pub version: Vec<u8>,
}

/// The style sheet of a model that brings none.
pub open spec fn default_css_text() -> Seq<char> {
    ".card {\n    font-family: arial;\n    font-size: 20px;\n    text-align: center;\n    color: black;\n    background-color: white;\n}"@
}

/// The LaTeX preamble of a model that brings none.
pub open spec fn default_latex_pre_text() -> Seq<char> {
    "\n\\documentclass[12pt]{article}\n\\special{papersize=3in,5in}\n\\usepackage[utf8]{inputenc}\n\\usepackage{amssymb,amsmath}\n\\pagestyle{empty}\n\\setlength{\\parindent}{0in}\n\\begin{document}\n"@
}

/// The LaTeX postamble of a model that brings none.
pub open spec fn default_latex_post_text() -> Seq<char> {
    "\\end{document}"@
}

/// The given text, or the text that stands in for it where none is given.
pub open spec fn text_or(given: Option<String>, fallback: Seq<char>) -> Seq<char> {
    match given {
        Some(text) => text@,
        None => fallback,
    }
}

impl Model {
    /// The style sheet of a model that brings none.
    pub fn default_css() -> (css: String)
        ensures
            css@ == default_css_text(),
    {
        String::from_str(
            ".card {\n    font-family: arial;\n    font-size: 20px;\n    text-align: center;\n    color: black;\n    background-color: white;\n}",
        )
    }

    /// The deck that a model adds its cards to where none is named: 0.
    pub fn default_deck_id() -> (id: u64)
        ensures
            id == 0,
    {
        0
    }

    /// The LaTeX preamble of a model that brings none.
    pub fn default_latex_pre() -> (preamble: String)
        ensures
            preamble@ == default_latex_pre_text(),
    {
        String::from_str(
            "\n\\documentclass[12pt]{article}\n\\special{papersize=3in,5in}\n\\usepackage[utf8]{inputenc}\n\\usepackage{amssymb,amsmath}\n\\pagestyle{empty}\n\\setlength{\\parindent}{0in}\n\\begin{document}\n",
        )
    }

    /// The LaTeX postamble of a model that brings none.
    pub fn default_latex_post() -> (postamble: String)
        ensures
            postamble@ == default_latex_post_text(),
    {
        String::from_str("\\end{document}")
    }

    /// The time of change of a model that was never changed: 0.
    pub fn default_modification() -> (time: i64)
        ensures
            time == 0,
    {
        0
    }

    /// The update sequence number of a model that was never synchronised:
    /// -1.
    pub fn default_usn() -> (number: i64)
        ensures
            number == -1,
    {
        -1
    }

    /// The requirements of a new model: none.
    pub fn default_req() -> (req: Vec<(usize, String, Vec<usize>)>)
        ensures
            req@ == Seq::<(usize, String, Vec<usize>)>::empty(),
    {
        Vec::new()
    }

    /// The tags of a new model: none.
    pub fn default_tags() -> (tags: Vec<String>)
        ensures
            tags@ == Seq::<String>::empty(),
    {
        Vec::new()
    }

    /// The version of a new model: empty.
    pub fn default_version() -> (version: Vec<u8>)
        ensures
            version@ == Seq::<u8>::empty(),
    {
        Vec::new()
    }

    /// A model with the given fields. The style sheet and the two LaTeX
    /// texts are the given ones or, where none is given, the defaults;
    /// everything that is not given is as in a new model.
    pub fn new(
        css: Option<String>,
        fields: Vec<ModelField>,
        model_id: u64,
        latex_post: Option<String>,
        latex_pre: Option<String>,
        name: String,
        sort_field_index: usize,
        templates: Vec<ModelTemplate>,
        model_type: ModelType,
    ) -> (model: Model)
        ensures
            model.css@ == text_or(css, default_css_text()),
            model.default_deck_id == 0,
            model.fields == fields,
            model.model_id == model_id,
            model.latex_post@ == text_or(latex_post, default_latex_post_text()),
            model.latex_pre@ == text_or(latex_pre, default_latex_pre_text()),
            model.modification == 0,
            model.name == name,
            model.req@ == Seq::<(usize, String, Vec<usize>)>::empty(),
            model.sort_field_index == sort_field_index,
            model.tags@ == Seq::<String>::empty(),
            model.templates == templates,
            model.model_type == model_type,
            model.update_seq_number == -1,
            model.version@ == Seq::<u8>::empty(),
    {
        Model {
            css: match css {
                Some(text) => text,
                None => Model::default_css(),
            },
            default_deck_id: Model::default_deck_id(),
            fields,
            model_id,
            latex_post: match latex_post {
                Some(text) => text,
                None => Model::default_latex_post(),
            },
            latex_pre: match latex_pre {
                Some(text) => text,
                None => Model::default_latex_pre(),
            },
            modification: Model::default_modification(),
            name,
            req: Model::default_req(),
            sort_field_index,
            tags: Model::default_tags(),
            templates,
            model_type,
            update_seq_number: Model::default_usn(),
            version: Model::default_version(),
        }
    }
}

} // verus!
