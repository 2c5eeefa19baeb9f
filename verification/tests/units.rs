use moyu::arrange::arrange;
use moyu::dates::validate_date;
use moyu::names::{plain_path, split_file_name, validate_file_name, validate_name};
use moyu::notes::{decode_note, encode_note, normalize_newlines};
use moyu::order::{parse_order, render_order};
use moyu::sizes::format_size;
use moyu::store::{matches_query, parts_start_with};
use moyu::todos::{clean_todos, parse_todos, sink_done, todo_file_text};
use moyu::{Change, Content, DataFolder, DayFile, Entry, ExportTarget, Folder, ImportSource, Store, StoreError, TodoItem};

fn blank_folder() -> DataFolder {
    DataFolder {
        root: "data".to_string(),
        location: "/srv/moyu/data".to_string(),
        root_parts: vec!["/".to_string(), "srv".to_string(), "moyu".to_string(), "data".to_string()],
        separator: '/',
        missing_dir_message: "No such file or directory (os error 2)".to_string(),
        not_dir_message: "Not a directory (os error 20)".to_string(),
        ignore_case: false,
        todos_listed: true,
        notes_error: None,
        days: Vec::new(),
        notes: Vec::new(),
        order: Content::Missing,
    }
}

fn item(text: &str, done: bool) -> TodoItem {
    TodoItem { text: text.to_string(), done }
}

fn chars(s: &str) -> Vec<char> {
    s.chars().collect()
}

fn strings(v: &[&str]) -> Vec<String> {
    v.iter().map(|s| s.to_string()).collect()
}

fn file(name: &str, text: Option<&str>, size: u64) -> Entry {
    Entry {
        name: name.to_string(),
        is_file: true,
        size,
        content: match text {
            Some(t) => Content::Text(t.to_string()),
            None => Content::Missing,
        },
        location: None,
    }
}

fn with_category(entries: Vec<Entry>) -> DataFolder {
    let mut data = blank_folder();
    data.notes.push(Folder {
        name: "部署".to_string(),
        is_dir: true,
        location: None,
        entries,
    });
    data
}

/// The label the size of a file gets, computed in floating point.
fn float_label(bytes: u64) -> String {
    let kb = 1024.0_f64;
    let mb = 1024.0_f64 * 1024.0_f64;
    if bytes < 1024 {
        format!("{bytes} B")
    } else if (bytes as f64) < mb {
        format!("{:.1} KB", bytes as f64 / kb)
    } else {
        format!("{:.1} MB", bytes as f64 / mb)
    }
}

#[test]
fn size_labels_match_floating_point() {
    let samples: Vec<u64> = vec![
        0, 1, 999, 1023, 1024, 1025, 1075, 1126, 1280, 1331, 1536, 2047, 2048, 10 * 1024 + 51, 102_400, 1_048_575,
        1_048_576, 1_101_005, 1_310_720, 1_572_864, 5_000_000, 1 << 40, (1 << 53) + 1, (1 << 53) + 3, 1 << 60,
        u64::MAX - 1, u64::MAX,
    ];
    for b in samples {
        assert_eq!(format_size(b), float_label(b), "bytes {b}");
    }
    for b in (1000u64..20000).step_by(7) {
        assert_eq!(format_size(b), float_label(b), "bytes {b}");
    }
    for b in (1_000_000u64..1_200_000).step_by(997) {
        assert_eq!(format_size(b), float_label(b), "bytes {b}");
    }
}

#[test]
fn size_labels_exact_values() {
    assert_eq!(format_size(0), "0 B");
    assert_eq!(format_size(1023), "1023 B");
    assert_eq!(format_size(1024), "1.0 KB");
    assert_eq!(format_size(1536), "1.5 KB");
    assert_eq!(format_size(1_048_576), "1.0 MB");
}

#[test]
fn dates_follow_the_calendar() {
    assert_eq!(validate_date("2024-02-29").unwrap(), "2024-02-29");
    assert_eq!(validate_date("2000-02-29").unwrap(), "2000-02-29");
    assert!(validate_date("1900-02-29").is_err());
    assert!(validate_date("2026-04-31").is_err());
    assert!(validate_date("2026-4-01").is_err());
    assert!(validate_date("2026-00-10").is_err());
    assert!(validate_date("2026-12-00").is_err());
    match validate_date("2026-02-29") {
        Err(StoreError::Invalid(m)) => assert_eq!(m, "日期不正确"),
        other => panic!("unexpected {other:?}"),
    }
}

#[test]
fn names_are_checked() {
    assert_eq!(validate_name("  名字  ").unwrap(), "名字");
    let message = |r: Result<String, StoreError>| match r {
        Err(StoreError::Invalid(m)) => m,
        other => panic!("unexpected {other:?}"),
    };
    assert_eq!(message(validate_name("   ")), "名称不能为空");
    assert_eq!(message(validate_name("..")), "名称不能为空");
    assert_eq!(message(validate_name(&"名".repeat(61))), "名称过长");
    assert!(validate_name(&"名".repeat(60)).is_ok());
    assert_eq!(message(validate_name("a/b")), "名称不能包含 \\ / : * ? \" < > | [ ]");
    assert_eq!(message(validate_name("a[1]")), "名称不能包含 \\ / : * ? \" < > | [ ]");
    assert_eq!(message(validate_name("ab.")), "名称不能以空格或点结尾");
    assert_eq!(message(validate_name("con.txt")), "这个名称不能使用");
    assert_eq!(message(validate_name("LPT9")), "这个名称不能使用");
    assert!(validate_name("LPT0").is_ok());
    assert!(validate_name("console").is_ok());
}

#[test]
fn file_names_are_checked() {
    assert_eq!(validate_file_name(" ok.md ").unwrap(), "ok.md");
    assert!(validate_file_name(".hidden").is_err());
    assert!(validate_file_name("draft.TMP").is_err());
    assert!(validate_file_name("~$lock.docx").is_err());
    assert!(validate_file_name("a:b.md").is_err());
    assert!(validate_file_name("..").is_err());
    assert!(validate_file_name("备份~").is_err());
}

#[test]
fn paths_lose_the_verbatim_prefix() {
    assert_eq!(plain_path(r"\\?\C:\data"), r"C:\data");
    assert_eq!(plain_path("/srv/data"), "/srv/data");
}

#[test]
fn file_names_split_like_paths() {
    let split = |s: &str| {
        let (a, b) = split_file_name(&chars(s));
        (a.into_iter().collect::<String>(), b.into_iter().collect::<String>())
    };
    assert_eq!(split("a.b.md"), ("a.b".to_string(), "md".to_string()));
    assert_eq!(split(".bashrc"), (".bashrc".to_string(), String::new()));
    assert_eq!(split("LICENSE"), ("LICENSE".to_string(), String::new()));
    assert_eq!(split(".."), ("..".to_string(), String::new()));
    assert_eq!(split("a."), ("a".to_string(), String::new()));
}

#[test]
fn notes_are_encoded_exactly() {
    assert_eq!(encode_note("t", "a\r\nb\n\n"), "# t\n\na\nb\n");
    assert_eq!(encode_note("t", "\u{feff}x\ry"), "# t\n\nx\ny\n");
    assert_eq!(encode_note("t", "\n\n"), "# t\n");
    assert_eq!(decode_note("t", "# t\nbody\n"), "body");
    assert_eq!(decode_note("t", "# t\n\n\nbody\n\n"), "\nbody");
    assert_eq!(decode_note("t", "# other\n\nbody"), "# other\n\nbody");
    let n: String = normalize_newlines(&chars("\u{feff}\u{feff}a\r\n\rb")).into_iter().collect();
    assert_eq!(n, "a\n\nb");
}

#[test]
fn note_written_then_read_gives_kept_body() {
    let bodies = ["", "一行", "两行\r\n第二行\r\n\r\n", "\n\n开头空行", "尾部\n\n\n"];
    for body in bodies {
        let kept = body.trim_start_matches('\u{feff}').replace("\r\n", "\n").replace('\r', "\n");
        let kept = kept.trim_end_matches('\n');
        assert_eq!(decode_note("标题", &encode_note("标题", body)), kept);
    }
}

#[test]
fn todo_files_are_read_and_written() {
    let items = vec![item("写周报", false), item("更新说明", true)];
    let text = todo_file_text("2026-09-19", &items);
    assert_eq!(text, "# 2026-09-19\n\n- [ ] 写周报\n- [x] 更新说明\n");
    assert_eq!(parse_todos(&text), items);
    assert_eq!(parse_todos("- [X] 大写\n  - [ ]   缩进  \n- [ ]\n- [y] 不算\n"), vec![item("大写", true), item("缩进", false)]);
    assert_eq!(
        sink_done(vec![item("a", true), item("b", false), item("c", true), item("d", false)]),
        vec![item("b", false), item("d", false), item("a", true), item("c", true)]
    );
    assert_eq!(clean_todos(&[item(" 多\n行\r文字 ", false), item("  ", true)]).unwrap(), vec![item("多 行 文字", false)]);
    match clean_todos(&[item(&"事".repeat(201), false)]) {
        Err(StoreError::Invalid(m)) => assert_eq!(m, "待办太长了"),
        other => panic!("unexpected {other:?}"),
    }
    assert!(clean_todos(&[item(&"事".repeat(200), false)]).is_ok());
}

#[test]
fn orders_are_arranged() {
    let r = arrange(&strings(&["b", "x", "a", "b"]), strings(&["c", "a", "b", "d"]));
    assert_eq!(r, strings(&["b", "a", "c", "d"]));
    let again = arrange(&r, strings(&["d", "c", "b", "a"]));
    assert_eq!(again, r);
    assert_eq!(arrange(&[], strings(&["乙", "甲", "丙"])), strings(&["丙", "乙", "甲"]));
}

#[test]
fn order_file_reads_back_what_was_written() {
    let raw = "## 分类\n- 乙\n- 甲\n\n## 文件\n\n### 甲\n\n- b.md\n- a.md\n\n### 丁\n- z.md\n\n### 乙\n";
    let order = parse_order(raw);
    assert_eq!(order.categories, strings(&["乙", "甲"]));
    let text = render_order(&order);
    assert!(text.starts_with("# 排序\n\n本文件由摸鱼大王自动更新。\n\n## 分类\n\n- 乙\n- 甲\n\n## 文件\n"));
    let again = parse_order(&text);
    assert_eq!(again.categories, order.categories);
    let names_of = |o: &moyu::order::LibraryOrder, k: &str| {
        o.files.iter().find(|f| f.category == k).map(|f| f.names.clone())
    };
    for k in ["甲", "乙", "丁", "丙"] {
        assert_eq!(names_of(&again, k), names_of(&order, k), "category {k}");
    }
    assert_eq!(names_of(&again, "甲"), Some(strings(&["b.md", "a.md"])));
}

#[test]
fn queries_match_title_or_file_name() {
    assert!(matches_query(&chars(""), &chars("a"), &chars("b")));
    assert!(matches_query(&chars("ab"), &chars("xaby"), &chars("q")));
    assert!(matches_query(&chars("ab"), &chars("x"), &chars("ab.md")));
    assert!(!matches_query(&chars("ab"), &chars("a b"), &chars("ba")));
}

#[test]
fn queries_ignore_case() {
    let data = with_category(vec![file("Readme.md", Some("# Readme\n"), 9), file("ΣΟΦΙΑ.txt", Some("x"), 1)]);
    let store = Store::open(data).unwrap();
    let hits = store.list_notes(None, Some(" README ")).unwrap();
    assert_eq!(hits.len(), 1);
    assert_eq!(hits[0].file_name, "Readme.md");
    let hits = store.list_notes(Some("部署"), Some("σοφ")).unwrap();
    assert_eq!(hits.len(), 1);
    assert_eq!(hits[0].title, "ΣΟΦΙΑ");
}

#[test]
fn components_start_with_base() {
    let base = strings(&["/", "srv", "data"]);
    assert!(parts_start_with(&strings(&["/", "srv", "data", "todos"]), &base));
    assert!(parts_start_with(&strings(&["/", "srv", "data"]), &base));
    assert!(!parts_start_with(&strings(&["/", "srv", "database"]), &base));
    assert!(!parts_start_with(&strings(&["/", "srv"]), &base));
}

#[test]
fn errors_read_as_messages() {
    assert_eq!(StoreError::Invalid("坏".into()).message(), "坏");
    assert_eq!(StoreError::Io("disk full".into()).message(), "读写失败：disk full");
}

#[test]
fn unreadable_files_give_io_errors() {
    let mut data = blank_folder();
    data.days.push(DayFile { name: "2026-09-19.md".to_string(), content: Content::Unreadable("denied".to_string()) });
    let store = Store::new(data);
    match store.load_day("2026-09-19") {
        Err(StoreError::Io(m)) => assert_eq!(m, "denied"),
        other => panic!("unexpected {other:?}"),
    }
    let mut data = blank_folder();
    data.order = Content::Unreadable("broken".to_string());
    let store = Store::new(data);
    assert!(matches!(store.list_categories(), Err(StoreError::Io(_))));
}

#[test]
fn missing_things_are_not_found() {
    let mut store = Store::open(with_category(vec![file("a.md", Some("# a\n"), 4)])).unwrap();
    match store.read_note("部署", "b.md") {
        Err(StoreError::NotFound(m)) => assert_eq!(m, "资料不存在"),
        other => panic!("unexpected {other:?}"),
    }
    match store.save_note("不存在", "x", "y", None) {
        Err(StoreError::NotFound(m)) => assert_eq!(m, "分类不存在"),
        other => panic!("unexpected {other:?}"),
    }
    assert!(matches!(store.reorder_files("不存在", &[]), Err(StoreError::NotFound(_))));
    assert!(matches!(store.open_category_directory("不存在"), Err(StoreError::NotFound(_))));
    match store.delete_note("不存在", "a.md") {
        Err(StoreError::Io(m)) => assert_eq!(m, "No such file or directory (os error 2)"),
        other => panic!("unexpected {other:?}"),
    }
}

#[test]
fn taken_names_conflict() {
    let mut store = Store::open(with_category(vec![])).unwrap();
    match store.create_category("部署") {
        Err(StoreError::Conflict(m)) => assert_eq!(m, "已有同名分类"),
        other => panic!("unexpected {other:?}"),
    }
    store.save_note("部署", "a", "x", None).unwrap();
    store.save_note("部署", "b", "y", None).unwrap();
    match store.save_note("部署", "b", "z", Some("a.md")) {
        Err(StoreError::Conflict(m)) => assert_eq!(m, "已有同名资料"),
        other => panic!("unexpected {other:?}"),
    }
}

#[test]
fn imports_number_their_names_up_to_two_hundred() {
    let mut entries = vec![file("手册.docx", None, 1)];
    for k in 2..=200 {
        entries.push(file(&format!("手册 {k}.docx"), None, 1));
    }
    let mut store = Store::open(with_category(entries)).unwrap();
    let src = ImportSource {
        path: "/home/me/手册.DOCX".to_string(),
        file_name: "手册.DOCX".to_string(),
        is_file: true,
        size: 10,
    };
    match store.import_file("部署", &src) {
        Err(StoreError::Conflict(m)) => assert_eq!(m, "同名文件太多了"),
        other => panic!("unexpected {other:?}"),
    }
    let mut store = Store::open(with_category(vec![file("手册.docx", None, 1), file("手册 2.docx", None, 1)])).unwrap();
    let s = store.import_file("部署", &src).unwrap();
    assert_eq!(s.file_name, "手册 3.docx");
    assert_eq!(s.title, "手册 3");
    let missing = ImportSource { is_file: false, ..src.clone() };
    match store.import_file("部署", &missing) {
        Err(StoreError::NotFound(m)) => assert_eq!(m, "找不到要导入的文件"),
        other => panic!("unexpected {other:?}"),
    }
    let hidden = ImportSource { file_name: ".env".to_string(), ..src.clone() };
    match store.import_file("部署", &hidden) {
        Err(StoreError::Invalid(m)) => assert_eq!(m, "这类文件不会在资料库中展示"),
        other => panic!("unexpected {other:?}"),
    }
    let copied = store.take_changes().into_iter().any(|c| match c {
        Change::CopyIn { name, source, size, .. } => name == "手册 3.docx" && source == "/home/me/手册.DOCX" && size == 10,
        _ => false,
    });
    assert!(copied);
}

#[test]
fn text_files_keep_their_extension() {
    let mut store = Store::open(with_category(vec![file("说明.txt", Some("第一行\r\n第二行\n\n"), 24), file("图.png", None, 5)])).unwrap();
    let doc = store.read_note("部署", "说明.txt").unwrap();
    assert_eq!(doc.body, "第一行\n第二行");
    assert_eq!(doc.size_label, "24 B");
    assert_eq!(doc.kind, "text");
    let image = store.read_note("部署", "图.png").unwrap();
    assert_eq!(image.body, "");
    assert_eq!(image.kind, "file");
    match store.save_note("部署", "图", "x", Some("图.png")) {
        Err(StoreError::Invalid(m)) => assert_eq!(m, "非文本文件请用系统程序打开编辑"),
        other => panic!("unexpected {other:?}"),
    }
    let saved = store.save_note("部署", "新说明", "甲\r\n乙", Some(" 说明.txt ")).unwrap();
    assert_eq!(saved.file_name, "新说明.txt");
    assert_eq!(saved.extension, "txt");
    assert_eq!(saved.body, "甲\n乙");
    assert_eq!(saved.size_label, "8 B");
    assert_eq!(store.read_note("部署", "新说明.txt").unwrap(), saved);
    assert!(store.read_note("部署", "说明.txt").is_err());
}

#[test]
fn opening_asks_the_system() {
    let mut store = Store::open(with_category(vec![file("a.md", Some("# a\n"), 4)])).unwrap();
    store.take_changes();
    store.open_file("部署", "a.md").unwrap();
    store.reveal_file("部署", "a.md").unwrap();
    store.open_root().unwrap();
    store.open_category_directory("部署").unwrap();
    let paths: Vec<String> = store
        .take_changes()
        .into_iter()
        .map(|c| match c {
            Change::Open { path } => format!("open {path}"),
            Change::Reveal { path } => format!("reveal {path}"),
            _ => String::new(),
        })
        .collect();
    assert_eq!(
        paths,
        vec![
            "open /srv/moyu/data/notes/部署/a.md".to_string(),
            "reveal /srv/moyu/data/notes/部署/a.md".to_string(),
            "open /srv/moyu/data".to_string(),
            "open /srv/moyu/data/notes/部署".to_string(),
        ]
    );
}

#[test]
fn exports_are_limited() {
    let mut store = Store::new(blank_folder());
    let target = ExportTarget { path: "/tmp/a.MD".to_string(), file_name: "a.MD".to_string(), parent_parts: None };
    assert!(store.write_export(&target, "ok").is_ok());
    match store.write_export(&target, &"x".repeat(2_000_001)) {
        Err(StoreError::Invalid(m)) => assert_eq!(m, "导出内容过长"),
        other => panic!("unexpected {other:?}"),
    }
    let bare = ExportTarget { path: "/tmp/.md".to_string(), file_name: ".md".to_string(), parent_parts: None };
    assert!(store.write_export(&bare, "x").is_err());
}

#[test]
fn dragged_category_order_survives_a_reopen() {
    let mut store = Store::open(blank_folder()).unwrap();
    for name in ["甲", "乙", "丙"] {
        store.create_category(name).unwrap();
    }
    store.reorder_categories(&strings(&["丙", "不存在", "甲", "丙"])).unwrap();
    assert_eq!(store.list_categories().unwrap(), strings(&["丙", "甲", "乙"]));
    let reopened = Store::open(store.data().clone()).unwrap();
    assert_eq!(reopened.list_categories().unwrap(), strings(&["丙", "甲", "乙"]));
}

#[test]
fn created_and_deleted_categories_are_listed_and_gone() {
    let mut store = Store::open(blank_folder()).unwrap();
    store.create_category("甲").unwrap();
    store.create_category(".隐藏").unwrap();
    assert_eq!(store.list_categories().unwrap(), strings(&["甲"]));
    store.create_category("乙").unwrap();
    store.delete_category("甲").unwrap();
    assert_eq!(store.list_categories().unwrap(), strings(&["乙"]));
}

#[test]
fn carrying_twice_moves_nothing_the_second_time() {
    let mut store = Store::open(blank_folder()).unwrap();
    store.save_day("2026-01-01", &[item("一", false), item("二", true)]).unwrap();
    store.save_day("2025-12-31", &[item("零", false)]).unwrap();
    assert_eq!(store.carry_unfinished("2026-01-02").unwrap(), 2);
    assert_eq!(
        store.load_day("2026-01-02").unwrap(),
        vec![item("零", false), item("一", false)]
    );
    assert_eq!(store.carry_unfinished("2026-01-02").unwrap(), 0);
    assert_eq!(store.load_day("2026-01-01").unwrap(), vec![item("二", true)]);
    assert!(store.carry_unfinished("2026-02-30").is_err());
}

#[test]
fn saved_day_reads_back_sorted() {
    let mut store = Store::open(blank_folder()).unwrap();
    store.save_day("2026-03-01", &[item("完成", true), item(" 未完成\n续 ", false)]).unwrap();
    assert_eq!(store.load_day("2026-03-01").unwrap(), vec![item("未完成 续", false), item("完成", true)]);
}

#[test]
fn new_files_and_folders_have_their_paths() {
    let mut store = Store::open(blank_folder()).unwrap();
    store.create_category("部署").unwrap();
    let src = ImportSource {
        path: "/home/me/手册.docx".to_string(),
        file_name: "手册.docx".to_string(),
        is_file: true,
        size: 12,
    };
    store.import_file("部署", &src).unwrap();
    assert_eq!(store.absolute_path("部署", "手册.docx").unwrap(), "/srv/moyu/data/notes/部署/手册.docx");
    store.save_note("部署", "笔记", "正文", None).unwrap();
    assert_eq!(store.absolute_path("部署", "笔记.md").unwrap(), "/srv/moyu/data/notes/部署/笔记.md");
    store.save_note("部署", "改名", "正文", Some("笔记.md")).unwrap();
    assert_eq!(store.absolute_path("部署", "改名.md").unwrap(), "/srv/moyu/data/notes/部署/改名.md");
    store.rename_category("部署", "归档").unwrap();
    assert_eq!(store.absolute_path("归档", "改名.md").unwrap(), "/srv/moyu/data/notes/归档/改名.md");
    store.take_changes();
    store.open_category_directory("归档").unwrap();
    store.reveal_file("归档", "手册.docx").unwrap();
    let paths: Vec<String> = store
        .take_changes()
        .into_iter()
        .map(|c| match c {
            Change::Open { path } => path,
            Change::Reveal { path } => path,
            _ => String::new(),
        })
        .collect();
    assert_eq!(paths, vec!["/srv/moyu/data/notes/归档".to_string(), "/srv/moyu/data/notes/归档/手册.docx".to_string()]);
}

#[test]
fn windows_paths_lose_the_verbatim_prefix() {
    let mut data = blank_folder();
    data.location = r"\\?\C:\moyu\data".to_string();
    data.separator = '\\';
    let mut store = Store::open(data).unwrap();
    store.create_category("部署").unwrap();
    store.save_note("部署", "笔记", "x", None).unwrap();
    assert_eq!(store.absolute_path("部署", "笔记.md").unwrap(), r"C:\moyu\data\notes\部署\笔记.md");
    assert_eq!(store.display_path(), r"C:\moyu\data");
}

#[test]
fn an_unlisted_notes_folder_fails_the_listing() {
    let mut data = blank_folder();
    data.notes_error = Some("Permission denied (os error 13)".to_string());
    let mut store = Store::new(data.clone());
    match store.list_categories() {
        Err(StoreError::Io(m)) => assert_eq!(m, "Permission denied (os error 13)"),
        other => panic!("unexpected {other:?}"),
    }
    assert!(matches!(store.reorder_categories(&[]), Err(StoreError::Io(_))));
    assert!(matches!(store.save_day("2026-01-01", &[item("a", false)]), Err(StoreError::Io(_))));
    let opened = Store::open(data).unwrap();
    assert!(opened.list_categories().unwrap().is_empty());
}

#[test]
fn a_missing_todo_folder_lists_no_days_in_the_index() {
    let mut data = blank_folder();
    data.todos_listed = false;
    let mut store = Store::new(data);
    store.create_category("甲").unwrap();
    let index = store
        .take_changes()
        .into_iter()
        .filter_map(|c| match c {
            Change::WriteIndex { text } => Some(text),
            _ => None,
        })
        .last()
        .unwrap();
    assert!(index.starts_with("# 资料目录\n\n本文件由摸鱼大王自动更新。\n\n## 待办\n\n\n## 资料\n"));
    assert!(!index.contains("还没有待办文件"));
}

#[test]
fn missing_folder_messages_come_from_the_folder() {
    let mut data = with_category(vec![]);
    data.missing_dir_message = "The system cannot find the path specified. (os error 3)".to_string();
    let mut store = Store::open(data).unwrap();
    match store.delete_note("没有", "a.md") {
        Err(StoreError::Io(m)) => assert_eq!(m, "The system cannot find the path specified. (os error 3)"),
        other => panic!("unexpected {other:?}"),
    }
}

#[test]
fn names_differing_in_case_conflict_where_case_is_ignored() {
    let mut data = with_category(vec![file("ABC.md", Some("# ABC\n\n正文\n"), 18)]);
    data.ignore_case = true;
    let mut store = Store::open(data).unwrap();
    assert!(matches!(store.save_note("部署", "abc", "x", None), Err(StoreError::Conflict(_))));
    assert!(matches!(store.save_note("部署", "abc", "x", Some("ABC.md")), Err(StoreError::Conflict(_))));
    store.create_category("abc").unwrap();
    assert!(matches!(store.create_category("ABC"), Err(StoreError::Conflict(_))));
    assert!(matches!(store.rename_category("abc", "Abc"), Err(StoreError::Conflict(_))));
    let src = ImportSource {
        path: "/home/me/abc.MD".to_string(),
        file_name: "abc.MD".to_string(),
        is_file: true,
        size: 3,
    };
    assert_eq!(store.import_file("部署", &src).unwrap().file_name, "abc 2.md");
}

#[test]
fn names_differing_in_case_are_distinct_where_case_counts() {
    let data = with_category(vec![file("ABC.md", Some("# ABC\n\n正文\n"), 18)]);
    let mut store = Store::open(data).unwrap();
    assert_eq!(store.save_note("部署", "abc", "x", None).unwrap().file_name, "abc.md");
    store.create_category("abc").unwrap();
    store.create_category("ABC").unwrap();
    let src = ImportSource {
        path: "/home/me/ABC.MD".to_string(),
        file_name: "ABC.MD".to_string(),
        is_file: true,
        size: 3,
    };
    assert_eq!(store.import_file("部署", &src).unwrap().file_name, "ABC 2.md");
}

#[test]
fn files_read_from_disk_keep_their_resolved_paths() {
    let mut a = file("a.md", Some("# a\n\n"), 5);
    a.location = Some("/mnt/share/部署/真名.md".to_string());
    let b = file("b.md", Some("# b\n\n"), 5);
    let mut data = with_category(vec![a, b]);
    data.notes[0].location = Some("/mnt/share/部署".to_string());
    let mut store = Store::open(data).unwrap();
    assert_eq!(store.absolute_path("部署", "a.md").unwrap(), "/mnt/share/部署/真名.md");
    assert_eq!(store.absolute_path("部署", "b.md").unwrap(), "/mnt/share/部署/b.md");
    store.take_changes();
    store.open_category_directory("部署").unwrap();
    match store.take_changes().pop() {
        Some(Change::Open { path }) => assert_eq!(path, "/mnt/share/部署"),
        other => panic!("unexpected {other:?}"),
    }
    store.save_note("部署", "a", "新", Some("a.md")).unwrap();
    assert_eq!(store.absolute_path("部署", "a.md").unwrap(), "/mnt/share/部署/a.md");
    store.rename_category("部署", "归档").unwrap();
    assert_eq!(store.absolute_path("归档", "a.md").unwrap(), "/srv/moyu/data/notes/归档/a.md");
}

#[test]
fn refused_saves_and_imports_change_nothing() {
    let data = with_category(vec![file("甲.md", Some("# 甲\n\n"), 8), file("图.png", None, 4)]);
    let mut store = Store::open(data).unwrap();
    store.take_changes();
    assert!(matches!(store.save_note("部署", "甲", "x", None), Err(StoreError::Conflict(_))));
    assert!(matches!(store.save_note("没有", "乙", "x", None), Err(StoreError::NotFound(_))));
    assert!(matches!(store.save_note("部署", "a/b", "x", None), Err(StoreError::Invalid(_))));
    assert!(matches!(store.save_note("部署", "乙", "x", Some("图.png")), Err(StoreError::Invalid(_))));
    let hidden = ImportSource {
        path: "/home/me/.hidden".to_string(),
        file_name: ".hidden".to_string(),
        is_file: true,
        size: 1,
    };
    assert!(matches!(store.import_file("部署", &hidden), Err(StoreError::Invalid(_))));
    let folder = ImportSource {
        path: "/home/me/目录".to_string(),
        file_name: "目录".to_string(),
        is_file: false,
        size: 0,
    };
    assert!(matches!(store.import_file("部署", &folder), Err(StoreError::NotFound(_))));
    assert!(store.take_changes().is_empty());
}
