use ankimdown::db_model::model::{Model, ModelField, ModelTemplate, ModelType};

#[test]
fn test_model_field() {
    let field = ModelField::new("test".to_string(), 1);
    assert_eq!(field.font, "Arial");
    assert_eq!(field.media.len(), 0);
    assert_eq!(field.name, "test");
    assert_eq!(field.ordinal, 1);
    assert!(!field.right_to_left);
    assert_eq!(field.font_size, 20);
    assert!(!field.sticky);
}

#[test]
fn test_model_template() {
    let template =
        ModelTemplate::new("test".to_string(), "test".to_string(), "test".to_string());
    assert_eq!(template.answer_template, "test");
    assert_eq!(template.browser_answer_template, "");
    assert_eq!(template.browser_question_format, "");
    assert_eq!(template.default_deck_id, None);
    assert_eq!(template.name, "test");
    assert_eq!(template.question_format, "test");
}

#[test]
fn test_model_template_keeps_its_three_texts_apart() {
    let template =
        ModelTemplate::new("name".to_string(), "question".to_string(), "answer".to_string());
    assert_eq!(template.name, "name");
    assert_eq!(template.question_format, "question");
    assert_eq!(template.answer_template, "answer");
}

#[test]
fn test_model() {
    let model = Model::new(
        Some("test".to_string()),
        vec![],
        1,
        Some("test".to_string()),
        Some("test".to_string()),
        "test".to_string(),
        0,
        vec![],
        ModelType::FrontBack,
    );

    assert_eq!(model.css, "test");
    assert_eq!(model.fields.len(), 0);
    assert_eq!(model.model_id, 1);
    assert_eq!(model.latex_post, "test");
    assert_eq!(model.latex_pre, "test");
    assert_eq!(model.modification, 0);
    assert_eq!(model.name, "test");
    assert_eq!(model.sort_field_index, 0);
    assert_eq!(model.templates.len(), 0);
    assert_eq!(model.model_type, ModelType::FrontBack);
}

#[test]
fn test_model_default() {
    let model = Model::new(
        None,
        vec![],
        1,
        None,
        None,
        "test".to_string(),
        0,
        vec![],
        ModelType::FrontBack,
    );
    assert_eq!(model.css, Model::default_css());
    assert_eq!(model.fields.len(), 0);
    assert_eq!(model.model_id, 1);
    assert_eq!(model.latex_post, Model::default_latex_post());
    assert_eq!(model.latex_pre, Model::default_latex_pre());
    assert_eq!(model.modification, 0);
    assert_eq!(model.name, "test");
    assert_eq!(model.sort_field_index, 0);
    assert_eq!(model.templates.len(), 0);
    assert_eq!(model.model_type, ModelType::FrontBack);
}

#[test]
fn test_model_keeps_what_it_is_given() {
    let fields = vec![ModelField::new("front".to_string(), 0)];
    let templates =
        vec![ModelTemplate::new("card".to_string(), "front".to_string(), "back".to_string())];
    let model = Model::new(
        Some("css".to_string()),
        fields.clone(),
        7,
        Some("post".to_string()),
        Some("pre".to_string()),
        "name".to_string(),
        3,
        templates.clone(),
        ModelType::Cloze,
    );
    assert_eq!(model.css, "css");
    assert_eq!(model.latex_post, "post");
    assert_eq!(model.latex_pre, "pre");
    assert_eq!(model.fields, fields);
    assert_eq!(model.templates, templates);
    assert_eq!(model.sort_field_index, 3);
    assert_eq!(model.model_type, ModelType::Cloze);
    assert_eq!(model.default_deck_id, 0);
    assert_eq!(model.update_seq_number, -1);
    assert!(model.req.is_empty());
    assert!(model.tags.is_empty());
    assert!(model.version.is_empty());
}

#[test]
fn test_model_default_values() {
    assert_eq!(
        Model::default_css(),
        ".card {\n    font-family: arial;\n    font-size: 20px;\n    text-align: center;\n    color: black;\n    background-color: white;\n}"
    );
    assert_eq!(Model::default_deck_id(), 0);
    assert_eq!(
        Model::default_latex_pre(),
        "\n\\documentclass[12pt]{article}\n\\special{papersize=3in,5in}\n\\usepackage[utf8]{inputenc}\n\\usepackage{amssymb,amsmath}\n\\pagestyle{empty}\n\\setlength{\\parindent}{0in}\n\\begin{document}\n"
    );
    assert_eq!(Model::default_latex_post(), "\\end{document}");
    assert_eq!(Model::default_modification(), 0);
    assert_eq!(Model::default_usn(), -1);
    assert!(Model::default_req().is_empty());
    assert!(Model::default_tags().is_empty());
    assert!(Model::default_version().is_empty());
}
