//! Fonts, styles, menus, keys, labels and pictures.
use pdfer::assets::Assets;
use pdfer::document::{Align, Script};
use pdfer::fonts::{
    choose_metrics, equal_ignoring_case, face_change, filter_families, group_face_change, matching,
    best_metrics, measure_misfit, metrics_for_run, missing_font_status, picker_height, picker_rows,
    preselect_family, refreshed_fonts_status, remember_font, replaces_primary, run_family,
    substituted_status, text_contains, FaceInfo, MetricsSource, Substitutes,
};
use pdfer::frame::{Grip, Guide};
use pdfer::geometry::{Rect, Spot};
use pdfer::keys::{on_key, KeyState, ViewerKey, ZOOM_STEP, ZOOM_STEP_DOWN};
use pdfer::labels::{
    align_glyph, align_icon, document_title, export_name, font_button_title, page_label,
    panel_mode, placeholder, saved_name, status_line, thumbnail_label, toggled, unpack, zoom_label,
    DocumentFont, PanelMode,
};
use pdfer::menus::{
    copied_page_status, from_hundredths, gap_before, insert_menu, menu_place, page_menu,
    preset_change, preset_label, preset_place, preset_values, text_menu, MenuAction, PanelMenu,
    PresetKind,
};
use pdfer::overlay::{bar_place, frame_place, guide_place, marker_place, Side};
use pdfer::panel::{number_text, panel_size, typed_size};
use pdfer::picture::{swap_channels, thumbnail_pixels, to_texture};
use pdfer::recents::{RecentDoc, Recents};
use pdfer::rich_text::RunStyle;
use pdfer::styles::{
    bound_status, change_style, create_style, delete_style, find_style, rename_style, row_texts,
    rows_match, style_to_text, DefChange, StyleDef,
};
use pdfer::units::Color;
use pdfer::workspace::{card_click, first_pdf, recents_heading, CardClick, Opening, Workspace};

fn points(value: f64) -> i64 {
    (value * 16_777_216.0) as i64
}

fn strings(list: &[&str]) -> Vec<String> {
    list.iter().map(|text| (*text).to_owned()).collect()
}

#[test]
fn a_family_is_found_however_it_is_spelt() {
    let families = strings(&["Calibri", "PT Serif", "arial"]);
    let keys = strings(&["calibri", "ptserif", "arial"]);
    assert_eq!(preselect_family(&families, &keys, "ptserif", "PTSerif-Regular"), (Some(1), None));
    let (index, hint) = preselect_family(&families, &keys, "gotham", "Gotham-Bold");
    assert_eq!(index, Some(2));
    assert_eq!(
        hint.as_deref(),
        Some(
            "Шрифта «Gotham-Bold» нет в системе — при смене оформления будет встроен «arial»"
        )
    );
    assert_eq!(preselect_family(&families, &keys, "", "?").0, Some(2));
    assert_eq!(preselect_family(&vec![], &vec![], "x", "x"), (None, None));
    let one = strings(&["Times"]);
    assert_eq!(preselect_family(&one, &strings(&["times"]), "x", "x").0, Some(0));
    assert!(equal_ignoring_case("Pdf", "pDF"));
    assert!(!equal_ignoring_case("Ж", "ж"));
}

#[test]
fn fonts_are_looked_for_whatever_the_case() {
    let families = strings(&["Arial", "Ариал", "Georgia", "ARIAL Black"]);
    assert_eq!(filter_families(&families, "  aRi "), vec![0, 3]);
    assert_eq!(filter_families(&families, "АРИ"), vec![1]);
    assert_eq!(filter_families(&families, " "), vec![0, 1, 2, 3]);
    assert_eq!(matching(&strings(&["ab", "bc"]), "b"), vec![0, 1]);
    assert_eq!(matching(&strings(&["ab", "bc"]), "c"), vec![1]);
    assert!(text_contains("aab", "ab"));
    assert!(!text_contains("ab", "abc"));
}

#[test]
fn the_last_fonts_are_remembered() {
    let mut recent = Vec::new();
    for name in ["a", "b", "c", "d", "e", "c"] {
        recent = remember_font(&recent, name);
    }
    assert_eq!(recent, strings(&["c", "e", "d", "b"]));
}

#[test]
fn the_font_that_measures_best_wins() {
    let lines = vec![points(100.0), points(0.5), points(50.0)];
    let (total, length) = measure_misfit(&vec![points(101.0), points(9.0), points(48.0)], &lines);
    assert_eq!(total, points(3.0) as i128);
    assert_eq!(length, points(150.0) as i128);
    let keys = strings(&["serif", "bold", "serif", "serif"]);
    assert_eq!(choose_metrics(&keys, &vec![5, 1, 3, 3]), vec![2, 1]);
    assert_eq!(best_metrics(&vec![], &vec![]), None);
    assert_eq!(best_metrics(&vec![2, 0], &vec![5, 1, 9]), Some(0));
    assert_eq!(best_metrics(&vec![1, 2], &vec![5, 1, 9]), Some(1));
    assert!(replaces_primary(0, 100, 10_000));
    assert!(!replaces_primary(0, 50, 10_000));
    assert!(!replaces_primary(0, 50, 0));
    let style = RunStyle { document_family: Some("Serif".to_owned()), ..Default::default() };
    assert_eq!(run_family(&style).as_deref(), Some("Serif"));
    let known = strings(&["serif"]);
    let key = Some("serif".to_owned());
    assert_eq!(metrics_for_run(&key, &known, true), MetricsSource::Family(0));
    assert_eq!(metrics_for_run(&None, &known, true), MetricsSource::Block);
    assert_eq!(metrics_for_run(&key, &vec![], false), MetricsSource::Estimate);
}

#[test]
fn a_substitute_is_kept_by_its_family() {
    let mut substitutes = Substitutes::new();
    assert_eq!(substitutes.substitute_for("gotham"), None);
    substitutes.substitute_font("gotham", "Arial".to_owned());
    substitutes.substitute_font("gotham", "Georgia".to_owned());
    substitutes.substitute_font("minion", "Times".to_owned());
    assert_eq!(substitutes.substitute_for("gotham").map(String::as_str), Some("Georgia"));
    assert_eq!(
        substituted_status("Gotham", "Arial"),
        "«Gotham» будет набираться шрифтом Arial"
    );
    assert_eq!(
        missing_font_status("Gotham"),
        "Шрифт «Gotham» не встроен в документ и не установлен в системе — поставьте его и нажмите ⟳ в панели формата"
    );
    assert_eq!(refreshed_fonts_status(true, 7), "Список шрифтов обновлён: 7 семейств");
    assert_eq!(
        refreshed_fonts_status(false, 7),
        "Новых шрифтов не найдено, семейств по-прежнему 7"
    );
}

#[test]
fn an_exact_face_brings_its_weight_along() {
    let face = Some(FaceInfo { style: "Bold Italic".to_owned(), bold: true, italic: true });
    let change = face_change(&face);
    assert_eq!((change.bold, change.italic, change.family), (Some(true), Some(true), None));
    let group = group_face_change("Arial", &None);
    assert_eq!((group.bold, group.family.as_deref()), (None, Some("Arial")));
}

#[test]
fn the_list_of_fonts_draws_what_is_seen() {
    assert_eq!(picker_height(points(300.0)), points(240.0));
    assert_eq!(picker_height(points(900.0)), points(740.0));
    assert_eq!(picker_rows(0, false, 0, points(280.0), points(500.0), 100), (0, 18));
    assert_eq!(picker_rows(points(280.0), true, 4, points(280.0), 0, 20), (6, 20));
    assert_eq!(picker_rows(points(280.0), false, 1, 0, points(28.0), 100), (4, 13));
}

fn def(id: i64, name: &str) -> StyleDef {
    StyleDef {
        id,
        name: name.to_owned(),
        family: None,
        size: Some(points(10.5)),
        color: None,
        bold: true,
        italic: false,
        underline: false,
    }
}

#[test]
fn styles_are_renamed_changed_and_deleted() {
    let defs = vec![def(1, "Текст"), def(2, "Заголовок")];
    assert!(rename_style(&defs, 1, String::new()).is_none());
    assert!(rename_style(&defs, 1, "Текст".to_owned()).is_none());
    let renamed = rename_style(&defs, 2, "Сноска".to_owned()).unwrap();
    assert_eq!(renamed[1].name, "Сноска");
    assert_eq!(renamed[0], defs[0]);
    assert_eq!(delete_style(&defs, 1), vec![def(2, "Заголовок")]);
    assert_eq!(create_style(&defs, def(3, "Новый")).len(), 3);
    assert!(rows_match(&vec![1, 2], &defs));
    assert!(!rows_match(&vec![2, 1], &defs));
    assert_eq!(row_texts(&defs[0]), ("Текст".to_owned(), String::new(), "10.5".to_owned()));
    let window = Some(vec![def(1, "Окно")]);
    assert_eq!(find_style(&window, &defs, 1).unwrap().name, "Окно");
    assert_eq!(find_style(&window, &defs, 2).unwrap().name, "Заголовок");
    assert!(find_style(&None, &defs, 9).is_none());
    let toggled = change_style(def(1, "Текст"), DefChange::ToggleBold);
    assert!(!toggled.bold);
    assert_eq!(change_style(toggled, DefChange::Family(String::new())).family, None);
    let change = style_to_text(&defs[0]);
    assert_eq!((change.bold, change.size, change.family), (Some(true), Some(points(10.5)), None));
    assert_eq!(bound_status("Текст"), "Блок привязан к стилю «Текст»");
}

#[test]
fn menus_offer_what_can_be_done() {
    let page = page_menu(4, 2, 0);
    assert_eq!(page.len(), 6);
    assert_eq!(page[3].title, "Копировать выбранные");
    assert!(!page[4].enabled);
    assert!(page[5].danger);
    assert_eq!(page[5].action, MenuAction::DeletePage { page_number: 5 });
    let text = text_menu(false, true, false);
    assert_eq!(text[2].action, MenuAction::DeleteGroup);
    assert!(text[0].enabled && !text[1].enabled);
    assert_eq!(text_menu(true, false, true)[2].action, MenuAction::EraseSelected);
    let insert = insert_menu(0, true, 3);
    assert_eq!(insert[0].action, MenuAction::InsertBlank { page_number: 0 });
    assert_eq!(insert[1].title, "Вставить страниц: 3");
    assert_eq!(insert_menu(6, false, 1)[1].title, "Вставить страницу");
    let at = Spot { x: points(5.0), y: points(5.0) };
    assert_eq!(gap_before(0, at), PanelMenu::Insert { after: 0, at, before_first: true });
    assert_eq!(gap_before(3, at), PanelMenu::Insert { after: 2, at, before_first: false });
    let corner = Spot { x: points(990.0), y: points(790.0) };
    let place = menu_place(corner, points(1000.0), points(800.0), 3);
    assert_eq!(place, Spot { x: points(802.0), y: points(686.0) });
    assert_eq!(copied_page_status(2), "Страница 3 скопирована");
}

#[test]
fn ready_values_are_listed() {
    assert_eq!(preset_values(PresetKind::LineHeight)[1], 120);
    assert_eq!(preset_label(PresetKind::LineHeight, 120), "1.20");
    assert_eq!(preset_label(PresetKind::CharSpacing, -75), "-0.75");
    assert_eq!(preset_label(PresetKind::HScale, 8500), "85");
    assert_eq!(from_hundredths(150), points(1.5));
    assert!(preset_change(PresetKind::HScale, points(1.0)).is_none());
    assert!(preset_change(PresetKind::HScale, points(80.0)).is_some());
    let at = Spot { x: 0, y: points(790.0) };
    let place = preset_place(at, points(1000.0), points(800.0), PresetKind::LineHeight);
    assert_eq!(place, Spot { x: 0, y: points(600.0) });
}

#[test]
fn keys_depend_on_what_is_open() {
    let calm = KeyState {
        menu_open: false,
        font_picker_open: false,
        grid: false,
        group: false,
        editing: false,
    };
    assert_eq!(on_key("=", true, calm), ViewerKey::ZoomBy(ZOOM_STEP));
    assert_eq!(on_key("-", true, calm), ViewerKey::ZoomBy(ZOOM_STEP_DOWN));
    assert_eq!(on_key("b", false, calm), ViewerKey::ToggleBlocks);
    assert_eq!(on_key("b", false, KeyState { editing: true, ..calm }), ViewerKey::Nothing);
    assert_eq!(on_key("delete", false, calm), ViewerKey::Nothing);
    assert_eq!(on_key("delete", false, KeyState { group: true, ..calm }), ViewerKey::DeleteGroup);
    let grid = KeyState { grid: true, ..calm };
    assert_eq!(on_key("x", true, grid), ViewerKey::CutPages);
    assert_eq!(on_key("escape", false, grid), ViewerKey::CloseGrid);
    let menu = KeyState { menu_open: true, font_picker_open: true, ..grid };
    assert_eq!(on_key("escape", false, menu), ViewerKey::CloseMenu);
    assert_eq!(
        on_key("escape", false, KeyState { menu_open: false, ..menu }),
        ViewerKey::CloseFontPicker
    );
    assert_eq!(on_key("c", false, grid), ViewerKey::Nothing);
}

#[test]
fn labels_say_what_is_there() {
    assert_eq!(
        status_line(&None, 4, 120, 3 * 1024 * 1024, 7, 12),
        "стр.    5 из 120    ·   кэш    3 МБ в   7 тайлах   ·   в очереди  12"
    );
    assert_eq!(status_line(&Some("готово".to_owned()), 4, 120, 0, 0, 0), "готово");
    assert_eq!(document_title("a.pdf", true), "a.pdf — есть несохранённые правки");
    assert_eq!(zoom_label(points(1.25)), "125%");
    assert_eq!(thumbnail_label(0, 9), "1/9");
    assert_eq!(page_label(0, 9), "1 / 9");
    assert_eq!(placeholder(&Some("нет".to_owned())), "Не удалось открыть документ:\nнет");
    assert_eq!(export_name(&Some("book".to_owned()), 0), "book_p1.pdf");
    assert_eq!(export_name(&None, 2), "страница_p3.pdf");
    assert_eq!(saved_name(&Some("book".to_owned())), "book_правка.pdf");
    assert_eq!(saved_name(&None), "документ_правка.pdf");
    let face = Some("Bold".to_owned());
    assert_eq!(font_button_title(&Some("Arial".to_owned()), &face), "Arial · Bold");
    assert_eq!(font_button_title(&None, &None), "Гарнитура…");
    assert_eq!(panel_mode(true, false, 2, true), PanelMode::Group);
    assert_eq!(panel_mode(true, true, 2, true), PanelMode::Hidden);
    assert_eq!(panel_mode(true, false, 1, false), PanelMode::Empty);
    assert_eq!(align_icon(Align::Right), "icons/text-align-right.svg");
    assert_eq!(align_glyph(Align::Justify), "\u{2261}J");
    assert_eq!(toggled(Script::Subscript, Script::Subscript), Script::Baseline);
    assert_eq!(toggled(Script::Baseline, Script::Subscript), Script::Subscript);
    assert_eq!(unpack(0xD32F2F), (0xD3, 0x2F, 0x2F));
}

#[test]
fn a_font_of_the_document_is_described() {
    let mut font = DocumentFont {
        base_font: "Gotham".to_owned(),
        subtype: "TrueType".to_owned(),
        embedded: true,
        subset: true,
        system_family: None,
        pages: 12,
    };
    assert_eq!(font.marks(), "подмножество · в системе нет · TrueType · 12 стр.");
    assert_eq!(
        font.warning(),
        Some("поставьте шрифт в систему — иначе новых знаков не набрать")
    );
    assert_eq!(font.replacement(None, Some("Arial".to_owned())), (Some("Arial".to_owned()), true));
    let manual = Some("Georgia".to_owned());
    assert_eq!(font.replacement(manual, Some("Arial".to_owned())).0.as_deref(), Some("Georgia"));
    font.system_family = Some("Gotham".to_owned());
    font.subtype = String::new();
    font.embedded = false;
    assert_eq!(font.marks(), "не вшит · в системе: Gotham · 12 стр.");
    assert_eq!(font.warning(), None);
    assert_eq!(font.replacement(None, Some("Arial".to_owned())), (None, false));
}

#[test]
fn numbers_are_read_with_a_comma_and_degrees() {
    assert_eq!(number_text(" 12,5° ", true), "12.5");
    assert_eq!(number_text(" 12,5° ", false), "12.5°");
    assert_eq!(number_text("\u{a0}", true), "");
    assert_eq!(panel_size(Some(points(401.0)), points(9.0)), points(9.0));
    assert_eq!(panel_size(Some(points(1.0)), points(9.0)), points(1.0));
    assert_eq!(panel_size(None, points(9.0)), points(9.0));
    assert_eq!(typed_size(Some(points(400.0))), Some(points(400.0)));
    assert_eq!(typed_size(Some(points(0.5))), None);
    assert_eq!(typed_size(None), None);
}

#[test]
fn the_bar_stands_beside_the_frame() {
    let frame = Rect::new(points(500.0), points(100.0), points(590.0), points(150.0));
    let place = frame_place(frame, points(800.0), points(2.0));
    assert_eq!((place.left, place.top), (points(1000.0), points(1300.0)));
    assert_eq!((place.width, place.height), (points(180.0), points(100.0)));
    let bar = bar_place(frame, points(600.0), points(800.0), points(2.0), points(80.0));
    assert_eq!(bar, Spot { x: points(900.0), y: points(1186.0) });
    let high = Rect::new(0, points(790.0), points(50.0), points(800.0));
    let below = bar_place(high, points(600.0), points(800.0), points(1.0), points(80.0));
    assert_eq!(below, Spot { x: 0, y: points(36.0) });
    assert_eq!(guide_place(Guide::Vertical(points(7.0)), 0, points(2.0)), points(14.0));
    assert_eq!(
        guide_place(Guide::Horizontal(points(7.0)), points(10.0), points(2.0)),
        points(6.0)
    );
    assert_eq!(marker_place(Grip::TopRight), Some((Side::End, Side::Start)));
    assert_eq!(marker_place(Grip::Rotate), None);
}

#[test]
fn red_and_blue_are_swapped_for_a_file() {
    let pixels = vec![1, 2, 3, 4, 5, 6, 7, 8, 9, 10];
    assert_eq!(swap_channels(&pixels), vec![3, 2, 1, 4, 7, 6, 5, 8, 9, 10]);
    assert_eq!(swap_channels(&swap_channels(&pixels)), pixels);
    assert_eq!(thumbnail_pixels(2, 1, &pixels), Ok(vec![3, 2, 1, 4, 7, 6, 5, 8, 9, 10]));
    assert_eq!(
        thumbnail_pixels(2, 2, &pixels),
        Err("буфер не соответствует размеру 2x2".to_owned())
    );
    assert_eq!(to_texture(1, 2, vec![1, 2, 3, 4, 5, 6, 7, 8]), Some(vec![1, 2, 3, 4, 5, 6, 7, 8]));
    assert_eq!(to_texture(3, 1, vec![0; 11]), None);
    assert_eq!(to_texture(u32::MAX, u32::MAX, vec![0; 11]), None);
    assert_eq!(to_texture(0, 5, vec![]), Some(vec![]));
}

#[test]
fn a_document_that_opens_comes_among_the_recent_ones() {
    let mut workspace = Workspace::new(Recents::default());
    let failed = Opening::Failed(None);
    workspace.open_document("нет.pdf", failed, 5);
    assert_eq!(workspace.error.as_deref(), Some("не удалось открыть нет.pdf"));
    assert!(workspace.recents.entries().is_empty());
    let opened = Opening::Opened { pages: 3 };
    workspace.open_document("books/book.pdf", opened, 5);
    assert!(workspace.viewing);
    assert_eq!(workspace.error, None);
    assert_eq!(workspace.recents.entries().len(), 1);
    assert_eq!(workspace.recents.entries()[0].title, "book.pdf");
    workspace.show_home();
    assert!(!workspace.viewing);
    let dropped = vec![None, Some("txt".to_owned()), Some("PDF".to_owned())];
    assert_eq!(workspace.on_files_dropped(&dropped), Some(2));
    assert_eq!(workspace.on_files_dropped(&vec![None]), None);
    assert_eq!(workspace.error.as_deref(), Some("Перетащить можно только файл PDF"));
    assert_eq!(first_pdf(&vec![]), None);
    assert!(workspace.forget("other.pdf").is_none());
    assert_eq!(workspace.recents.entries().len(), 1);
    assert_eq!(workspace.forget("books//book.pdf").unwrap().path, "books/book.pdf");
    assert!(workspace.recents.entries().is_empty());
    assert_eq!(recents_heading(0), "Недавние документы");
    assert_eq!(recents_heading(4), "Недавние документы · 4");
    let doc = RecentDoc {
        path: "a.pdf".to_owned(),
        title: "a".to_owned(),
        pages: 12,
        opened_at: 0,
    };
    assert_eq!(doc.card_text(true, 10), "12 стр. · только что");
    assert_eq!(doc.card_text(false, 10), "файл не найден");
    assert_eq!(card_click(false), CardClick::Forget);
}

#[test]
fn assets_are_found_by_their_names() {
    let assets = Assets { names: strings(&["icons/a.svg", "icons/b.svg", "images/logo.png"]) };
    assert_eq!(assets.load("icons/b.svg"), Some(1));
    assert_eq!(assets.load("icons"), None);
    assert_eq!(assets.list("icons/"), vec![0, 1]);
    assert_eq!(assets.list(""), vec![0, 1, 2]);
}

#[test]
fn a_colour_of_a_style_is_kept() {
    let red = Color { red: 1, green: 2, blue: 3 };
    assert_eq!(change_style(def(1, "Текст"), DefChange::Color(red)).color, Some(red));
    assert_eq!(change_style(def(1, "Текст"), DefChange::Size(None)).size, None);
}
