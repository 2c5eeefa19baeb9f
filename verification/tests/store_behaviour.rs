use moyu::notes::{decode_note, encode_note};
use moyu::{Change, Content, DataFolder, DayFile, Entry, ExportTarget, Folder, ImportSource, Store, StoreError, TodoItem};

fn blank_folder() -> DataFolder {
    DataFolder {
        root: "/srv/moyu/data".to_string(),
        location: "/srv/moyu/data".to_string(),
        root_parts: vec!["/".to_string(), "srv".to_string(), "moyu".to_string(), "data".to_string()],
        separator: '/',
        missing_dir_message: "No such file or directory (os error 2)".to_string(),
        not_dir_message: "Not a directory (os error 20)".to_string(),
        ignore_case: false,
        todos_listed: true,
        notes_error: None,
        days: Vec::new(),
        notes: Vec::new(),
        order: Content::Missing,
    }
}

fn open(data: DataFolder) -> Store {
    Store::open(data).unwrap()
}

fn item(text: &str, done: bool) -> TodoItem {
    TodoItem { text: text.to_string(), done }
}

fn day_content(store: &Store, name: &str) -> Option<String> {
    store.data().days.iter().find(|d| d.name == name).and_then(|d| match &d.content {
        Content::Text(t) => Some(t.clone()),
        _ => None,
    })
}

fn folder<'a>(store: &'a Store, category: &str) -> Option<&'a Folder> {
    store.data().notes.iter().find(|f| f.name == category)
}

fn entry<'a>(store: &'a Store, category: &str, name: &str) -> Option<&'a Entry> {
    folder(store, category).and_then(|f| f.entries.iter().find(|e| e.name == name))
}

fn note_content(store: &Store, category: &str, name: &str) -> Option<String> {
    entry(store, category, name).and_then(|e| match &e.content {
        Content::Text(t) => Some(t.clone()),
        _ => None,
    })
}

fn last_index(store: &mut Store) -> String {
    let mut text = String::new();
    for change in store.take_changes() {
        if let Change::WriteIndex { text: t } = change {
            text = t;
        }
    }
    text
}

fn order_content(store: &Store) -> String {
    match &store.data().order {
        Content::Text(t) => t.clone(),
        _ => String::new(),
    }
}

/// The store again, after a file was put into a category folder by hand.
fn with_file(store: Store, category: &str, name: &str, text: &str) -> Store {
    let mut data = store.data().clone();
    let f = data.notes.iter_mut().find(|f| f.name == category).unwrap();
    f.entries.push(Entry {
        name: name.to_string(),
        is_file: true,
        size: text.len() as u64,
        content: Content::Text(text.to_string()),
        location: None,
    });
    Store::new(data)
}

fn with_dir(store: Store, category: &str, name: &str) -> Store {
    let mut data = store.data().clone();
    let f = data.notes.iter_mut().find(|f| f.name == category).unwrap();
    f.entries.push(Entry {
        name: name.to_string(),
        is_file: false,
        size: 0,
        content: Content::Missing,
        location: None,
    });
    Store::new(data)
}

fn import_source(path: &str, size: u64) -> ImportSource {
    let file_name = path.rsplit('/').next().unwrap_or("").to_string();
    ImportSource { path: path.to_string(), file_name, is_file: true, size }
}

#[test]
fn first_open_creates_no_categories_and_does_not_restore_deleted_ones() {
    let mut store = open(blank_folder());
    assert!(store.list_categories().unwrap().is_empty());
    store.create_category("指令").unwrap();
    store.delete_category("指令").unwrap();
    let reopened = Store::open(store.data().clone()).unwrap();
    assert!(reopened.list_categories().unwrap().is_empty());
}

#[test]
fn unfinished_items_roll_forward_and_finished_stay() {
    let mut store = open(blank_folder());
    store.save_day("2026-09-17", &[item("旧任务", false), item("已做完", true)]).unwrap();
    store.save_day("2026-09-18", &[item("昨天没做", false)]).unwrap();
    store.save_day("2026-09-19", &[item("今天的", false)]).unwrap();
    store.save_day("2026-09-20", &[item("明天的", false)]).unwrap();
    assert_eq!(store.carry_unfinished("2026-09-19").unwrap(), 2);
    assert_eq!(store.load_day("2026-09-17").unwrap(), vec![item("已做完", true)]);
    assert!(store.load_day("2026-09-18").unwrap().is_empty());
    assert_eq!(
        store.load_day("2026-09-19").unwrap().iter().map(|i| i.text.as_str()).collect::<Vec<_>>(),
        vec!["旧任务", "昨天没做", "今天的"]
    );
    assert_eq!(store.load_day("2026-09-20").unwrap()[0].text, "明天的");
    assert_eq!(store.carry_unfinished("2026-09-19").unwrap(), 0);
}

#[test]
fn todos_roundtrip_and_reject_bad_dates() {
    let mut store = open(blank_folder());
    assert!(store.load_day("2026-09-19").unwrap().is_empty());
    store
        .save_day("2026-09-19", &[item("  写周报  ", false), item("更新部署说明", true), item("   ", false)])
        .unwrap();
    assert_eq!(
        store.load_day("2026-09-19").unwrap(),
        vec![item("写周报", false), item("更新部署说明", true)]
    );
    let raw = day_content(&store, "2026-09-19.md").unwrap();
    assert!(raw.contains("- [ ] 写周报"));
    assert!(raw.contains("- [x] 更新部署说明"));

    store.save_day("2026-09-19", &[item("已做完", true), item("还没做", false)]).unwrap();
    assert_eq!(
        store.load_day("2026-09-19").unwrap().iter().map(|i| i.text.as_str()).collect::<Vec<_>>(),
        vec!["还没做", "已做完"]
    );

    assert!(store.load_day("2026-02-29").is_err());
    assert!(store.load_day("2024-02-29").unwrap().is_empty());
    assert!(store.load_day("../2026-09-19").is_err());
    assert!(store.load_day("2026-13-01").is_err());
    assert!(store.save_day("not-a-date", &[]).is_err());

    store.save_day("2026-09-19", &[]).unwrap();
    assert!(day_content(&store, "2026-09-19.md").is_none());
    assert!(!store.data().days.iter().any(|d| d.name == "2026-09-19.md"));
}

#[test]
fn handwritten_checkbox_file_is_readable() {
    let mut data = blank_folder();
    data.days.push(DayFile {
        name: "2026-09-18.md".to_string(),
        content: Content::Text("# 2026-09-18\r\n\r\n- [x] 已完成\r\n说明文字会被忽略\r\n- [ ] 未完成\r\n".to_string()),
    });
    let store = open(data);
    assert_eq!(
        store.load_day("2026-09-18").unwrap(),
        vec![item("已完成", true), item("未完成", false)]
    );
}

#[test]
fn note_roundtrip_rename_conflict_and_search() {
    let mut store = open(blank_folder());
    store.create_category("部署").unwrap();
    store.create_category("配置").unwrap();
    let saved = store.save_note("部署", "测试服务器", "Host: 10.0.0.8\n仅内网", None).unwrap();
    assert_eq!(saved.title, "测试服务器");
    assert_eq!(saved.file_name, "测试服务器.md");
    let loaded = store.read_note("部署", "测试服务器.md").unwrap();
    assert_eq!(loaded.body, "Host: 10.0.0.8\n仅内网");
    let raw = note_content(&store, "部署", "测试服务器.md").unwrap();
    assert!(raw.starts_with("# 测试服务器\n"));
    assert!(!raw.contains("tags:"));

    let renamed = store.save_note("部署", "预发服务器", "Host: 10.0.0.9", Some("测试服务器.md")).unwrap();
    assert_eq!(renamed.title, "预发服务器");
    assert!(store.read_note("部署", "测试服务器.md").is_err());
    assert_eq!(store.read_note("部署", "预发服务器.md").unwrap().body, "Host: 10.0.0.9");

    store.save_note("配置", "预发服务器", "别的内容", None).unwrap();
    let conflict = store.save_note("部署", "预发服务器", "覆盖", None);
    assert!(matches!(conflict, Err(StoreError::Conflict(_))));

    let hits = store.list_notes(None, Some("预发")).unwrap();
    assert_eq!(hits.len(), 2);
    assert!(hits.iter().any(|item| item.category == "部署"));
    assert!(store.list_notes(None, Some("10.0.0.9")).unwrap().is_empty());
    assert!(store.list_notes(Some("配置"), Some("不存在")).unwrap().is_empty());
}

#[test]
fn path_traversal_is_rejected() {
    let mut store = open(blank_folder());
    store.take_changes();
    assert!(store.save_note("../todos", "x", "secret", None).is_err());
    assert!(store.save_note("部署", "..\\..\\x", "secret", None).is_err());
    assert!(store.read_note("部署", "../../Cargo.toml").is_err());
    assert!(store.create_category("配置/逃逸").is_err());
    assert!(store.create_category("CON").is_err());
    assert!(store.create_category("com1").is_err());
    assert!(store.take_changes().is_empty());
    assert!(store.data().notes.is_empty());
}

#[test]
fn index_tracks_notes_and_todos_without_agent_instructions() {
    let mut store = open(blank_folder());
    store.save_day("2026-09-19", &[item("写周报", false)]).unwrap();
    store.create_category("配置").unwrap();
    store.save_note("配置", "数据库", "端口 5432", None).unwrap();
    let index = last_index(&mut store);
    assert!(index.contains("# 资料目录"));
    assert!(index.contains("../todos/2026-09-19.md"));
    assert!(index.contains("../notes/配置/数据库.md"));
    assert!(!index.contains("AGENTS"));
    assert!(!index.contains("frontmatter"));

    store.delete_note("配置", "数据库.md").unwrap();
    let index = last_index(&mut store);
    assert!(!index.contains("数据库.md"));
}

#[test]
fn empty_note_body_and_custom_category_order() {
    let mut store = open(blank_folder());
    store.create_category("临时").unwrap();
    let categories = store.list_categories().unwrap();
    assert_eq!(categories, vec!["临时"]);
    store.save_note("临时", "空笔记", "", None).unwrap();
    assert_eq!(store.read_note("临时", "空笔记.md").unwrap().body, "");
    let too_long = "名".repeat(61);
    assert!(store.create_category(&too_long).is_err());
    store.rename_category("临时", "归档").unwrap();
    assert_eq!(store.read_note("归档", "空笔记.md").unwrap().body, "");
    store.rename_category("归档", "归档").unwrap();
    store.create_category("别的").unwrap();
    assert!(matches!(store.rename_category("归档", "别的"), Err(StoreError::Conflict(_))));
    assert!(matches!(store.rename_category("不存在", "甲"), Err(StoreError::NotFound(_))));
}

#[test]
fn todo_length_limit() {
    let mut store = open(blank_folder());
    let too_long = "事".repeat(201);
    let error = store.save_day("2026-09-19", &[TodoItem { text: too_long, done: false }]);
    assert!(matches!(error, Err(StoreError::Invalid(_))));
}

#[test]
fn encode_decode_preserves_body() {
    let encoded = encode_note("标题", "第一行\n第二行");
    assert_eq!(decode_note("标题", &encoded), "第一行\n第二行");
    assert_eq!(decode_note("标题", &encode_note("标题", "")), "");
    assert_eq!(decode_note("标题", "没有标题的外部修改"), "没有标题的外部修改");
}

#[test]
fn sample_project_data_is_readable() {
    let mut data = blank_folder();
    let note = "# 测试服务器\n\nHost: 10.0.0.8\n仅内网\n";
    data.notes.push(Folder {
        name: "部署".to_string(),
        is_dir: true,
        location: None,
        entries: vec![Entry {
            name: "测试服务器.md".to_string(),
            is_file: true,
            size: note.len() as u64,
            content: Content::Text(note.to_string()),
            location: None,
        }],
    });
    data.days.push(DayFile {
        name: "2026-09-19.md".to_string(),
        content: Content::Text("# 2026-09-19\n\n- [ ] 写周报\n".to_string()),
    });
    let mut store = Store::open(data).unwrap();
    let categories = store.list_categories().unwrap();
    assert!(categories.contains(&"部署".to_string()));
    let note = store.read_note("部署", "测试服务器.md").unwrap();
    assert!(note.body.contains("10.0.0.8"));
    let day = store.load_day("2026-09-19").unwrap();
    assert!(!day.is_empty());
    let index = last_index(&mut store);
    assert!(index.contains("测试服务器"));
    assert!(!index.contains("AGENTS"));
    let shown = store.display_path();
    assert!(!shown.starts_with(r"\\?\"));
    assert!(shown.contains("data"));
}

#[test]
fn lists_and_imports_any_regular_file() {
    let mut store = open(blank_folder());
    store.create_category("部署").unwrap();
    let source = import_source("/home/me/手册.docx", 12);
    let imported = store.import_file("部署", &source).unwrap();
    assert_eq!(imported.extension, "docx");
    assert_eq!(imported.kind, "file");
    assert_eq!(imported.file_name, "手册.docx");
    assert!(entry(&store, "部署", "手册.docx").map(|e| e.is_file).unwrap_or(false));
    let fresh = store.absolute_path("部署", "手册.docx").unwrap();
    assert!(fresh.contains("手册.docx"));
    assert!(!fresh.starts_with(r"\\?\"));
    assert!(matches!(store.absolute_path("部署", "无.docx"), Err(StoreError::NotFound(_))));

    let again = store.import_file("部署", &source).unwrap();
    assert_eq!(again.file_name, "手册 2.docx");

    let png = import_source("/home/me/截图.png", 3);
    let image = store.import_file("部署", &png).unwrap();
    assert_eq!(image.extension, "png");
    assert_eq!(image.kind, "file");

    let bare = import_source("/home/me/LICENSE", 3);
    let no_ext = store.import_file("部署", &bare).unwrap();
    assert_eq!(no_ext.extension, "");
    assert_eq!(no_ext.file_name, "LICENSE");

    let exe = import_source("/home/me/tool.exe", 2);
    let binary = store.import_file("部署", &exe).unwrap();
    assert_eq!(binary.extension, "exe");

    let store = with_file(store, "部署", ".hidden", "x");
    let store = with_file(store, "部署", "draft.tmp", "x");
    let store = with_dir(store, "部署", "子目录");

    let listed = store.list_notes(Some("部署"), None).unwrap();
    let names: Vec<_> = listed.iter().map(|item| item.file_name.as_str()).collect();
    assert!(names.contains(&"手册.docx"));
    assert!(names.contains(&"截图.png"));
    assert!(names.contains(&"LICENSE"));
    assert!(names.contains(&"tool.exe"));
    assert!(!names.iter().any(|name| name.starts_with('.')));
    assert!(!names.iter().any(|name| name.ends_with(".tmp")));

    let mut store = store;
    let path = store.absolute_path("部署", "手册.docx").unwrap();
    assert!(path.contains("手册.docx"));
    assert!(!path.starts_with(r"\\?\"));
    store.delete_note("部署", "手册.docx").unwrap();
    assert!(entry(&store, "部署", "手册.docx").is_none());
}

#[test]
fn library_order_keeps_dragged_items_and_appends_new_ones() {
    let mut store = open(blank_folder());
    store.create_category("甲").unwrap();
    store.create_category("乙").unwrap();
    store.reorder_categories(&["乙".into(), "甲".into()]).unwrap();
    assert_eq!(store.list_categories().unwrap(), vec!["乙", "甲"]);
    store.create_category("丙").unwrap();
    assert_eq!(store.list_categories().unwrap(), vec!["乙", "甲", "丙"]);
    store.rename_category("甲", "甲二").unwrap();
    assert_eq!(store.list_categories().unwrap(), vec!["乙", "甲二", "丙"]);

    let store = with_file(store, "乙", "b.txt", "b");
    let mut store = with_file(store, "乙", "a.txt", "a");
    store.reorder_files("乙", &["b.txt".into(), "a.txt".into()]).unwrap();
    let names = |store: &Store| {
        store
            .list_notes(Some("乙"), None)
            .unwrap()
            .into_iter()
            .map(|note| note.file_name)
            .collect::<Vec<_>>()
    };
    assert_eq!(names(&store), vec!["b.txt", "a.txt"]);
    let mut store = with_file(store, "乙", "c.txt", "c");
    assert_eq!(names(&store), vec!["b.txt", "a.txt", "c.txt"]);
    store.delete_category("甲二").unwrap();
    assert_eq!(store.list_categories().unwrap(), vec!["乙", "丙"]);
    let raw = order_content(&store);
    assert!(raw.contains("## 分类"));
    assert!(raw.contains("- 乙"));
    assert!(!raw.contains("甲二"));
}

#[test]
fn export_writes_markdown_outside_data_and_rejects_inside() {
    let mut store = open(blank_folder());
    store.take_changes();
    let outside = ExportTarget {
        path: format!("/tmp/moyu-export-{}-{}.md", 1, 7),
        file_name: format!("moyu-export-{}-{}.md", 1, 7),
        parent_parts: Some(vec!["/".to_string(), "tmp".to_string()]),
    };
    store.write_export(&outside, "# 2026-09\n\n- [ ] 写周报\n").unwrap();
    let written = store
        .take_changes()
        .into_iter()
        .find_map(|c| match c {
            Change::WriteExport { path, text } if path == outside.path => Some(text),
            _ => None,
        })
        .unwrap();
    assert!(written.contains("- [ ] 写周报"));
    let inside = ExportTarget {
        path: "/srv/moyu/data/todos/导出.md".to_string(),
        file_name: "导出.md".to_string(),
        parent_parts: Some(vec!["/".to_string(), "srv".to_string(), "moyu".to_string(), "data".to_string(), "todos".to_string()]),
    };
    assert!(store.write_export(&inside, "x").is_err());
    let txt = ExportTarget {
        path: format!("/tmp/moyu-export-{}-{}.txt", 1, 7),
        file_name: format!("moyu-export-{}-{}.txt", 1, 7),
        parent_parts: Some(vec!["/".to_string(), "tmp".to_string()]),
    };
    assert!(store.write_export(&txt, "x").is_err());
}
