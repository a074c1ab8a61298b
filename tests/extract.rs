use embed_trait_info::annotate::annotate_source;
use embed_trait_info::extract::{bevy_traits_for_item, info_for_modules, Entry, ExtractError, ModuleInfo};
use embed_trait_info::graph::{Graph, Item, ItemKind, Span};
use embed_trait_info::markers::MarkerSet;
use embed_trait_info::position::PositionError;

fn span(file: &str, line: usize, column: usize) -> Span {
    Span {
        filename: file.to_string(),
        line,
        column,
    }
}

fn module(id: u32, name: &str, sp: Option<Span>, members: Vec<u32>) -> Item {
    Item {
        id,
        name: Some(name.to_string()),
        span: sp,
        kind: ItemKind::Module { members },
    }
}

fn type_def(id: u32, name: Option<&str>, impls: Vec<u32>) -> Item {
    Item {
        id,
        name: name.map(|n| n.to_string()),
        span: None,
        kind: ItemKind::TypeDef { impls },
    }
}

fn impl_of(id: u32, trait_name: Option<&str>) -> Item {
    Item {
        id,
        name: None,
        span: None,
        kind: ItemKind::Impl {
            trait_name: trait_name.map(|t| t.to_string()),
        },
    }
}

fn entry(name: &str, markers: &[&str]) -> Entry {
    Entry {
        name: name.to_string(),
        markers: markers.iter().map(|m| m.to_string()).collect(),
    }
}

fn run(items: Vec<Item>) -> Result<Vec<ModuleInfo>, ExtractError> {
    info_for_modules(&Graph { items }, &MarkerSet::engine())
}

#[test]
fn one_tagged_type_and_one_untagged() {
    let items = vec![
        module(0, "lib", Some(span("src/lib.rs", 1, 0)), vec![1, 2]),
        type_def(1, Some("Tagged"), vec![3]),
        type_def(2, Some("Plain"), vec![4]),
        impl_of(3, Some("Component")),
        impl_of(4, Some("Clone")),
    ];
    let infos = run(items).unwrap();
    assert_eq!(
        infos,
        vec![ModuleInfo {
            span: span("src/lib.rs", 1, 0),
            entries: vec![entry("Tagged", &["Component"])],
        }]
    );
}

#[test]
fn two_markers_in_encounter_order() {
    let items = vec![
        module(0, "lib", Some(span("src/lib.rs", 1, 0)), vec![1]),
        type_def(1, Some("Both"), vec![4, 2, 3]),
        impl_of(2, Some("Debug")),
        impl_of(3, Some("Component")),
        impl_of(4, Some("Resource")),
    ];
    let infos = run(items).unwrap();
    assert_eq!(infos.len(), 1);
    assert_eq!(infos[0].entries, vec![entry("Both", &["Resource", "Component"])]);
}

#[test]
fn missing_identifier_is_fatal() {
    let items = vec![
        module(0, "lib", Some(span("src/lib.rs", 1, 0)), vec![1, 7]),
        type_def(1, Some("Tagged"), vec![2]),
        impl_of(2, Some("Component")),
    ];
    assert_eq!(run(items), Err(ExtractError::MissingItem(7)));
}

#[test]
fn missing_impl_is_fatal() {
    let items = vec![
        module(0, "lib", Some(span("src/lib.rs", 1, 0)), vec![1]),
        type_def(1, Some("Tagged"), vec![9]),
    ];
    assert_eq!(run(items), Err(ExtractError::MissingItem(9)));
}

#[test]
fn impl_list_naming_a_non_impl_is_fatal() {
    let items = vec![
        module(0, "lib", Some(span("src/lib.rs", 1, 0)), vec![1]),
        type_def(1, Some("Tagged"), vec![0]),
    ];
    assert_eq!(run(items), Err(ExtractError::NotAnImpl(0)));
}

#[test]
fn tagged_type_without_name_is_fatal() {
    let items = vec![
        module(0, "lib", Some(span("src/lib.rs", 1, 0)), vec![1]),
        type_def(1, None, vec![2]),
        impl_of(2, Some("Event")),
    ];
    assert_eq!(run(items), Err(ExtractError::MissingName(1)));
}

#[test]
fn untagged_type_without_name_is_skipped() {
    let items = vec![
        module(0, "lib", Some(span("src/lib.rs", 1, 0)), vec![1]),
        type_def(1, None, vec![2]),
        impl_of(2, None),
    ];
    assert_eq!(run(items), Ok(vec![]));
}

#[test]
fn modules_without_span_give_nothing() {
    let items = vec![
        module(0, "lib", None, vec![1]),
        type_def(1, Some("Tagged"), vec![2]),
        impl_of(2, Some("Plugin")),
        module(3, "inner", None, vec![99]),
    ];
    assert_eq!(run(items), Ok(vec![]));
}

#[test]
fn type_with_only_other_traits_is_absent() {
    let items = vec![
        module(0, "lib", Some(span("src/lib.rs", 1, 0)), vec![1, 2]),
        type_def(1, Some("Other"), vec![3, 4]),
        type_def(2, Some("Tagged"), vec![5]),
        impl_of(3, Some("Clone")),
        impl_of(4, None),
        impl_of(5, Some("SystemSet")),
    ];
    let infos = run(items).unwrap();
    assert_eq!(infos[0].entries, vec![entry("Tagged", &["SystemSet"])]);
}

#[test]
fn non_type_members_are_ignored() {
    let items = vec![
        module(0, "lib", Some(span("src/lib.rs", 1, 0)), vec![1, 2]),
        Item {
            id: 1,
            name: Some("helper".to_string()),
            span: None,
            kind: ItemKind::Other,
        },
        module(2, "inner", Some(span("src/inner.rs", 1, 0)), vec![]),
    ];
    assert_eq!(run(items), Ok(vec![]));
}

#[test]
fn modules_keep_graph_order() {
    let items = vec![
        module(5, "b", Some(span("src/b.rs", 1, 0)), vec![1]),
        type_def(1, Some("B"), vec![2]),
        impl_of(2, Some("Asset")),
        module(6, "a", Some(span("src/a.rs", 3, 4)), vec![3]),
        type_def(3, Some("A"), vec![4]),
        impl_of(4, Some("ScheduleLabel")),
    ];
    let infos = run(items).unwrap();
    assert_eq!(infos.len(), 2);
    assert_eq!(infos[0].span, span("src/b.rs", 1, 0));
    assert_eq!(infos[1].span, span("src/a.rs", 3, 4));
    assert_eq!(infos[1].entries, vec![entry("A", &["ScheduleLabel"])]);
}

#[test]
fn custom_marker_set() {
    let items = vec![
        module(0, "lib", Some(span("src/lib.rs", 1, 0)), vec![1]),
        type_def(1, Some("T"), vec![2, 3]),
        impl_of(2, Some("Component")),
        impl_of(3, Some("Serialize")),
    ];
    let markers = MarkerSet::new(vec!["Serialize".to_string()]);
    let infos = info_for_modules(&Graph { items }, &markers).unwrap();
    assert_eq!(infos[0].entries, vec![entry("T", &["Serialize"])]);
}

#[test]
fn annotate_whole_module() {
    let info = ModuleInfo {
        span: span("src/lib.rs", 2, 0),
        entries: vec![entry("T", &["Component"])],
    };
    let text = "//! Doc.\nuse x;\n";
    let out = String::from_utf8(annotate_source(text, &info).unwrap()).unwrap();
    assert_eq!(
        out,
        "//! Doc.\n#![cfg_attr(doc, doc = \"<div id=\\\"bevy-traits-data\\\" style=\\\"display:none\\\">{\\\"T\\\":[\\\"Component\\\"]}</div>\")]\nuse x;\n"
    );
}

#[test]
fn annotating_twice_inserts_twice() {
    let info = ModuleInfo {
        span: span("src/lib.rs", 1, 0),
        entries: vec![entry("T", &["Event"])],
    };
    let text = "pub struct T;\n";
    let once = String::from_utf8(annotate_source(text, &info).unwrap()).unwrap();
    let twice = String::from_utf8(annotate_source(&once, &info).unwrap()).unwrap();
    assert_ne!(once, twice);
    assert_eq!(twice.matches("bevy-traits-data").count(), 2);
    assert!(twice.ends_with(&once));
}

#[test]
fn column_past_line_end_stops_only_that_module() {
    let items = vec![
        module(0, "a", Some(span("src/a.rs", 1, 0)), vec![1]),
        type_def(1, Some("A"), vec![2]),
        impl_of(2, Some("Component")),
        module(3, "b", Some(span("src/b.rs", 1, 40)), vec![4]),
        type_def(4, Some("B"), vec![5]),
        impl_of(5, Some("Resource")),
    ];
    let infos = run(items).unwrap();
    let sources = ["pub struct A;\n", "pub struct B;\n"];
    let first = annotate_source(sources[0], &infos[0]).unwrap();
    assert!(String::from_utf8(first).unwrap().ends_with("pub struct A;\n"));
    assert_eq!(
        annotate_source(sources[1], &infos[1]),
        Err(PositionError::ColumnOutOfRange)
    );
}

#[test]
fn line_past_text_end_is_an_error() {
    let info = ModuleInfo {
        span: span("src/lib.rs", 5, 0),
        entries: vec![entry("T", &["Event"])],
    };
    assert_eq!(
        annotate_source("a\nb\n", &info),
        Err(PositionError::LineOutOfRange)
    );
}

#[test]
fn engine_markers() {
    let m = MarkerSet::engine();
    for name in [
        "Plugin",
        "PluginGroup",
        "Component",
        "Resource",
        "Asset",
        "Event",
        "ScheduleLabel",
        "SystemSet",
        "SystemParam",
    ] {
        assert!(m.contains(&name.to_string()));
    }
    assert!(!m.contains(&"Reflect".to_string()));
    assert!(!m.contains(&"bevy::prelude::Component".to_string()));
}

#[test]
fn traits_of_one_type() {
    let graph = Graph {
        items: vec![
            type_def(1, Some("T"), vec![2, 3, 4]),
            impl_of(2, Some("Event")),
            impl_of(3, None),
            impl_of(4, Some("Plugin")),
        ],
    };
    let markers = MarkerSet::engine();
    assert_eq!(
        bevy_traits_for_item(&graph, &markers, &graph.items[0]),
        Ok(vec!["Event".to_string(), "Plugin".to_string()])
    );
}

#[test]
fn traits_of_untagged_type_are_empty() {
    let graph = Graph {
        items: vec![
            type_def(1, Some("T"), vec![2, 3]),
            impl_of(2, Some("Clone")),
            impl_of(3, None),
        ],
    };
    let markers = MarkerSet::engine();
    assert_eq!(bevy_traits_for_item(&graph, &markers, &graph.items[0]), Ok(vec![]));
}

#[test]
fn traits_of_non_type_are_empty() {
    let graph = Graph {
        items: vec![module(0, "m", None, vec![5])],
    };
    let markers = MarkerSet::engine();
    assert_eq!(bevy_traits_for_item(&graph, &markers, &graph.items[0]), Ok(vec![]));
}

#[test]
fn traits_with_dangling_impl_fail() {
    let graph = Graph {
        items: vec![type_def(1, Some("T"), vec![2, 8]), impl_of(2, Some("Asset"))],
    };
    let markers = MarkerSet::engine();
    assert_eq!(
        bevy_traits_for_item(&graph, &markers, &graph.items[0]),
        Err(ExtractError::MissingItem(8))
    );
}

#[test]
fn one_tagged_type_gives_one_annotation() {
    let items = vec![
        module(0, "lib", Some(span("src/lib.rs", 1, 0)), vec![1, 2]),
        type_def(1, Some("A"), vec![3]),
        type_def(2, Some("B"), vec![4]),
        impl_of(3, Some("Component")),
        impl_of(4, Some("Clone")),
    ];
    let infos = run(items).unwrap();
    let out = String::from_utf8(annotate_source("pub struct A;\npub struct B;\n", &infos[0]).unwrap()).unwrap();
    assert_eq!(out.matches("bevy-traits-data").count(), 1);
    assert!(out.contains("{\\\"A\\\":[\\\"Component\\\"]}"));
    assert!(!out.contains("\\\"B\\\""));
    assert!(out.ends_with("pub struct A;\npub struct B;\n"));
}
