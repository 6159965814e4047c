//! Templates of formats.
use pdfer::panel::PanelFormat;
use pdfer::templates::{template_status, FormatTemplate, TemplateUse, Templates, MAX_TEMPLATES};

fn points(value: f64) -> i64 {
    (value * 16_777_216.0) as i64
}

fn template(name: &str) -> FormatTemplate {
    FormatTemplate {
        name: name.to_owned(),
        family: "Arial".to_owned(),
        size: points(11.0),
        bold: false,
        italic: false,
        underline: false,
    }
}

#[test]
fn templates_detached_list_never_touches_disk() {
    let mut templates = Templates::default();
    assert!(templates.storage().is_none());
    templates.save(template("Стиль 1"));
    assert!(
        templates.storage().is_none()
    );
}

#[test]
fn saving_same_name_replaces_instead_of_duplicating() {
    let mut templates = Templates::default();
    templates.save(template("Основной"));
    templates.save(FormatTemplate {
        size: points(14.0),
        ..template("Основной")
    });

    assert_eq!(templates.items().len(), 1);
    assert_eq!(templates.items()[0].size, points(14.0));
}

#[test]
fn templates_list_is_capped() {
    let mut templates = Templates::default();
    for i in 0..(MAX_TEMPLATES + 5) {
        templates.save(template(&format!("Стиль {i}")));
    }
    assert_eq!(templates.items().len(), MAX_TEMPLATES);
    assert!(templates.is_full());
}

#[test]
fn suggested_name_skips_taken_ones() {
    let mut templates = Templates::default();
    assert_eq!(templates.suggest_name(), "Стиль 1");
    templates.save(template("Стиль 1"));
    assert_eq!(templates.suggest_name(), "Стиль 2");
}

#[test]
fn summary_mentions_every_enabled_trait() {
    let t = FormatTemplate {
        bold: true,
        italic: true,
        underline: true,
        ..template("Всё сразу")
    };
    let summary = t.summary();
    assert!(summary.contains("Arial"));
    assert!(summary.contains("полужирный"));
    assert!(summary.contains("курсив"));
    assert!(summary.contains("подчёркнутый"));
}

#[test]
fn removing_a_template_makes_its_name_free() {
    let mut templates = Templates::default();
    templates.save(template("Стиль 1"));
    templates.remove("Стиль 1");
    assert!(templates.items().is_empty());
    assert_eq!(templates.suggest_name(), "Стиль 1");
}

#[test]
fn a_full_list_takes_no_current_format() {
    let mut templates = Templates::default();
    let format = || PanelFormat {
        family: "Arial".to_owned(),
        size: points(9.0),
        bold: true,
        italic: false,
        underline: false,
    };
    for _ in 0..MAX_TEMPLATES {
        assert!(templates.save_current(format()).is_some());
    }
    assert!(templates.is_full());
    assert_eq!(templates.save_current(format()), None);
    assert_eq!(templates.items()[7].name, "Стиль 8");
    assert!(templates.items()[7].bold);
}

#[test]
fn a_template_says_what_it_holds() {
    let mut plain = template("Основной");
    assert_eq!(plain.summary(), "Arial 11 pt");
    plain.bold = true;
    assert_eq!(plain.hint(), "Arial 11 pt, полужирный\nAlt+клик — удалить шаблон");
    assert_eq!(plain.size_text(), "11.0");
    let change = plain.to_text();
    assert_eq!(change.family.as_deref(), Some("Arial"));
    assert_eq!(change.bold, Some(true));
    assert_eq!(change.size, None);
    let families = vec!["Georgia".to_owned(), "ARIAL".to_owned()];
    assert_eq!(plain.installed_family(&families), Some(1));
    assert_eq!(template_status("Основной", TemplateUse::Applied), "Шаблон «Основной» применён");
    assert_eq!(template_status("Основной", TemplateUse::Removed), "Шаблон «Основной» удалён");
    assert_eq!(template_status("Основной", TemplateUse::Saved), "Шаблон «Основной» сохранён");
}
