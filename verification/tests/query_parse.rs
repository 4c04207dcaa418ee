use mdq::dataview::query::{
    DataviewQuery, FromSource, QueryKind, Selection, SortClause, SortDirection, WhereClause,
};

#[test]
fn basic_list() {
    let (_, parsed) = DataviewQuery::parse(r#"list"#).unwrap();
    assert_eq!(
        parsed,
        DataviewQuery {
            kind: QueryKind::List,
            selection: Selection::default(),
            from_clause: FromSource::Folder("/".to_string()),
            sort_clause: None,
            limit: None,
            where_clause: None,
        }
    );
}

#[test]
fn basic_table() {
    let (_, parsed) = DataviewQuery::parse(r#"table"#).unwrap();
    assert_eq!(
        parsed,
        DataviewQuery {
            kind: QueryKind::Table,
            selection: Selection::default(),
            from_clause: FromSource::Folder("/".to_string()),
            sort_clause: None,
            limit: None,
            where_clause: None,
        }
    );
}

#[test]
fn task_query() {
    let (_, parsed) = DataviewQuery::parse(r#"TASK"#).unwrap();
    assert_eq!(
        parsed,
        DataviewQuery {
            kind: QueryKind::Task,
            selection: Selection::default(),
            from_clause: FromSource::Folder("/".to_string()),
            sort_clause: None,
            limit: None,
            where_clause: None,
        }
    );
}

#[test]
fn table_recipes() {
    let (_, parsed) = DataviewQuery::parse(r#"TABLE recipe-type AS "type", portions, length FROM #recipes"#).unwrap();
    assert_eq!(
        parsed,
        DataviewQuery {
            kind: QueryKind::Table,
            selection: Selection {
                expr: r#"recipe-type AS "type", portions, length"#.to_string()
            },
            from_clause: FromSource::Tag("recipes".to_string()),
            sort_clause: None,
            limit: None,
            where_clause: None,
        }
    );
}

#[test]
fn list_open_assignments() {
    let (_, parsed) = DataviewQuery::parse(r#"LIST FROM #assignments WHERE status = "open""#).unwrap();
    assert_eq!(
        parsed,
        DataviewQuery {
            kind: QueryKind::List,
            selection: Selection::default(),
            from_clause: FromSource::Tag("assignments".to_string()),
            sort_clause: None,
            limit: None,
            where_clause: Some(WhereClause::new("status = \"open\"")),
        }
    );
}

#[test]
fn table_appointments() {
    let (_, parsed) = DataviewQuery::parse(r#"TABLE file.ctime, appointment.type, appointment.time, follow-ups FROM "30 Protocols/32 Management" WHERE follow-ups SORT appointment.time"#).unwrap();
    assert_eq!(
        parsed,
        DataviewQuery {
            kind: QueryKind::Table,
            selection: Selection::new("file.ctime, appointment.type, appointment.time, follow-ups"),
            from_clause: FromSource::Folder("30 Protocols/32 Management".to_string()),
            sort_clause: Some(SortClause {
                expr: "appointment.time".to_string(),
                dir: SortDirection::Asc,
            }),
            limit: None,
            where_clause: Some(WhereClause::new("follow-ups")),
        }
    );
}

#[test]
fn list_sort() {
    let (_, parsed) = DataviewQuery::parse(r#"list sort file.ctime desc"#).unwrap();
    assert_eq!(
        parsed,
        DataviewQuery {
            kind: QueryKind::List,
            selection: Selection::default(),
            from_clause: FromSource::Folder("/".to_string()),
            sort_clause: Some(SortClause {
                expr: "file.ctime".to_string(),
                dir: SortDirection::Desc
            }),
            limit: None,
            where_clause: None
        }
    );
}

#[test]
fn list_recent() {
    let (_, parsed) = DataviewQuery::parse(r#"LIST WHERE file.mtime >= date(today) - dur(1 day)"#).unwrap();
    assert_eq!(
        parsed,
        DataviewQuery {
            kind: QueryKind::List,
            selection: Selection::default(),
            from_clause: FromSource::Folder("/".to_string()),
            sort_clause: None,
            limit: None,
            where_clause: Some(WhereClause::new("file.mtime >= date(today) - dur(1 day)")),
        }
    );
}

#[test]
fn list_old_projects() {
    let (_, parsed) = DataviewQuery::parse(r#"LIST FROM #projects WHERE !completed AND file.ctime <= date(today) - dur(1 month)"#).unwrap();
    assert_eq!(
        parsed,
        DataviewQuery {
            kind: QueryKind::List,
            selection: Selection::default(),
            from_clause: FromSource::Tag("projects".to_string()),
            sort_clause: None,
            limit: None,
            where_clause: Some(WhereClause::new(
                "!completed AND file.ctime <= date(today) - dur(1 month)"
            )),
        }
    );
}

#[test]
fn list_expensive_games() {
    let (_, parsed) = DataviewQuery::parse(r#"LIST FROM "Games" WHERE price > 10"#).unwrap();
    assert_eq!(
        parsed,
        DataviewQuery {
            kind: QueryKind::List,
            selection: Selection::default(),
            from_clause: FromSource::Folder("Games".to_string()),
            sort_clause: None,
            limit: None,
            where_clause: Some(WhereClause::new("price > 10")),
        }
    );
}

#[test]
fn task_due() {
    let (_, parsed) = DataviewQuery::parse(r#"TASK WHERE due <= date(today)"#).unwrap();
    assert_eq!(
        parsed,
        DataviewQuery {
            kind: QueryKind::Task,
            selection: Selection::default(),
            from_clause: FromSource::Folder("/".to_string()),
            sort_clause: None,
            limit: None,
            where_clause: Some(WhereClause::new("due <= date(today)")),
        }
    );
}

#[test]
fn list_homework_pending() {
    let (_, parsed) = DataviewQuery::parse(r#"LIST FROM #homework WHERE status != "done""#).unwrap();
    assert_eq!(
        parsed,
        DataviewQuery {
            kind: QueryKind::List,
            selection: Selection::default(),
            from_clause: FromSource::Tag("homework".to_string()),
            sort_clause: None,
            limit: None,
            where_clause: Some(WhereClause::new("status != \"done\"")),
        }
    );
}

#[test]
fn list_by_day() {
    let (_, parsed) = DataviewQuery::parse(r#"LIST file.day
WHERE file.day
SORT file.day DESC"#).unwrap();
    assert_eq!(
        parsed,
        DataviewQuery {
            kind: QueryKind::List,
            selection: Selection::new("file.day"),
            from_clause: FromSource::Folder("/".to_string()),
            sort_clause: Some(SortClause {
                expr: "file.day".to_string(),
                dir: SortDirection::Desc,
            }),
            limit: None,
            where_clause: Some(WhereClause::new("file.day")),
        }
    );
}

#[test]
fn table_books() {
    let (_, parsed) = DataviewQuery::parse(r#"TABLE file.mtime AS "Last Modified"
FROM "books"
SORT file.mtime DESC"#).unwrap();
    assert_eq!(
        parsed,
        DataviewQuery {
            kind: QueryKind::Table,
            selection: Selection::new(r#"file.mtime AS "Last Modified""#),
            from_clause: FromSource::Folder("books".to_string()),
            sort_clause: Some(SortClause {
                expr: "file.mtime".to_string(),
                dir: SortDirection::Desc,
            }),
            limit: None,
            where_clause: None,
        }
    );
}

#[test]
fn table_games() {
    let (_, parsed) = DataviewQuery::parse(r#"TABLE time-played AS "Time Played", length AS "Length", rating AS "Rating" FROM "games" SORT rating DESC"#).unwrap();
    assert_eq!(
        parsed,
        DataviewQuery {
            kind: QueryKind::Table,
            selection: Selection::new(
                r#"time-played AS "Time Played", length AS "Length", rating AS "Rating""#
            ),
            from_clause: FromSource::Folder("games".to_string()),
            sort_clause: Some(SortClause {
                expr: "rating".to_string(),
                dir: SortDirection::Desc,
            }),
            limit: None,
            where_clause: None,
        }
    );
}
