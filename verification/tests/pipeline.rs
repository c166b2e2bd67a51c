use qma::{
    build_table_def, display_as_csv, display_as_markdown, Accessor, Field, Index, LogValue,
    LogValueType, OpType, Table, TableDef, VisualizeType,
};

fn request_def() -> TableDef {
    let index = Index::new(Accessor::from_string(
        "method",
        "httpRequest.requestMethod",
        LogValueType::String,
    ));
    let latency = Field::new(
        Accessor::from_string("latency", "httpRequest.latency", LogValueType::Second),
        OpType::Average,
    );
    let count = Field::new(
        Accessor::from_string(
            "requestMethod",
            "httpRequest.requestMethod",
            LogValueType::String,
        ),
        OpType::Count,
    );
    TableDef::new(index, vec![latency, count])
}

fn request_lines() -> Vec<String> {
    vec![
        r#"{"httpRequest":{"requestMethod":"GET","latency":"100ms"}}"#.to_string(),
        r#"{"httpRequest":{"requestMethod":"GET","latency":"2.0s"}}"#.to_string(),
        r#"{"httpRequest":{"requestMethod":"POST","latency":"1.0s"}}"#.to_string(),
    ]
}

#[test]
fn three_records() {
    let mut table = Table::new(request_def());
    table.aggregate(&request_lines());
    assert_eq!(table.rows.len(), 2);

    let fields = &table.definition.fields;
    let get_row = |key: &str| -> Vec<LogValue> {
        let (_, row) = table
            .rows
            .iter()
            .find(|(k, _)| k == key)
            .expect("row for key");
        row.get_row(fields)
    };

    // "100ms" has an unsupported unit, so only "2.0s" feeds GET's average;
    // the method string itself was present on both GET records.
    let get = get_row("GET");
    assert_eq!(get[0].as_string(), "2.0000");
    assert_eq!(get[1].as_string(), "2");
    let post = get_row("POST");
    assert_eq!(post[0].as_string(), "1.0000");
    assert_eq!(post[1].as_string(), "1");
}

#[test]
fn csv_output_exact() {
    let mut table = Table::new(request_def());
    table.aggregate(&request_lines());
    let out = display_as_csv(&table);
    assert_eq!(
        out,
        "method,latency,requestMethod\n\
         GET,2.0000,2\n\
         POST,1.0000,1\n"
    );
}

#[test]
fn markdown_output_exact() {
    let mut table = Table::new(request_def());
    table.aggregate(&request_lines());
    let out = display_as_markdown(&table);
    assert_eq!(
        out,
        "|method    |latency   |requestMethod|\n\
         |:---------|:---------|:------------|\n\
         |GET       |    2.0000|            2|\n\
         |POST      |    1.0000|            1|\n"
    );
}

#[test]
fn rendering_is_deterministic_and_sorted() {
    // Insert keys out of lexicographic order; rendering must sort them,
    // and rendering twice must be byte-identical.
    let index = Index::new(Accessor::from_string("k", "k", LogValueType::String));
    let n = Field::new(
        Accessor::from_string("n", "n", LogValueType::Integer),
        OpType::Count,
    );
    let mut table = Table::new(TableDef::new(index, vec![n]));
    let lines = vec![
        r#"{"k":"zebra","n":"1"}"#.to_string(),
        r#"{"k":"apple","n":"2"}"#.to_string(),
        r#"{"k":"mango","n":"3"}"#.to_string(),
    ];
    table.aggregate(&lines);
    let once = display_as_csv(&table);
    let twice = display_as_csv(&table);
    assert_eq!(once, twice);
    assert_eq!(once, "k,n\napple,1\nmango,1\nzebra,1\n");
    let md_once = display_as_markdown(&table);
    let md_twice = display_as_markdown(&table);
    assert_eq!(md_once, md_twice);

    table.sort();
    assert_eq!(
        table.order.as_deref(),
        Some(&["apple".to_string(), "mango".to_string(), "zebra".to_string()][..])
    );
}

#[test]
fn csv_round_trips() {
    let mut table = Table::new(request_def());
    table.aggregate(&request_lines());
    let out = display_as_csv(&table);

    // Re-parse the delimited output: the key set and the displayed values
    // come back (not the original numeric precision).
    let mut lines = out.split('\n').collect::<Vec<_>>();
    assert_eq!(lines.pop(), Some(""));
    let rows: Vec<Vec<&str>> = lines.iter().map(|l| l.split(',').collect()).collect();
    assert_eq!(rows[0], vec!["method", "latency", "requestMethod"]);
    let mut keys: Vec<&str> = rows[1..].iter().map(|r| r[0]).collect();
    keys.sort();
    let mut expected: Vec<String> = table.rows.iter().map(|(k, _)| k.clone()).collect();
    expected.sort();
    assert_eq!(keys, expected.iter().map(|s| s.as_str()).collect::<Vec<_>>());
    for row in &rows[1..] {
        let (_, stored) = table
            .rows
            .iter()
            .find(|(k, _)| k == row[0])
            .expect("row for key");
        let displayed: Vec<String> = stored
            .get_row(&table.definition.fields)
            .iter()
            .map(|v| v.as_string())
            .collect();
        assert_eq!(row[1..].to_vec(), displayed);
    }
}

#[test]
fn aggregation_halts_on_first_bad_line() {
    let mut table = Table::new(request_def());
    let lines = vec![
        r#"{"httpRequest":{"requestMethod":"GET","latency":"2.0s"}}"#.to_string(),
        "{truncated".to_string(),
        r#"{"httpRequest":{"requestMethod":"POST","latency":"1.0s"}}"#.to_string(),
    ];
    table.aggregate(&lines);
    // The bad line ends aggregation; what accumulated before it stands.
    assert_eq!(table.rows.len(), 1);
    assert_eq!(table.rows[0].0, "GET");
}

#[test]
fn record_without_key_is_dropped() {
    let mut table = Table::new(request_def());
    let lines = vec![
        r#"{"other":"thing"}"#.to_string(),
        r#"{"httpRequest":{"requestMethod":"GET","latency":"2.0s"}}"#.to_string(),
    ];
    table.aggregate(&lines);
    assert_eq!(table.rows.len(), 1);
    assert_eq!(table.rows[0].0, "GET");
}

#[test]
fn empty_input_renders_header_only() {
    let table = Table::new(request_def());
    let out = display_as_csv(&table);
    assert_eq!(out, "method,latency,requestMethod\n");
}

#[test]
fn config_builds_definition() {
    let config = qma::Config {
        output_format: Some("csv".to_string()),
        order_by: None,
        order: None,
        index: qma::config::Index {
            name: "key".to_string(),
            accessor: "test.key".to_string(),
        },
        fields: vec![
            qma::config::Field {
                name: "field1".to_string(),
                accessor: "test.value".to_string(),
                dtype: "string".to_string(),
                operation: "count".to_string(),
            },
            qma::config::Field {
                name: "field2".to_string(),
                accessor: "test.value".to_string(),
                dtype: "second".to_string(),
                operation: "average".to_string(),
            },
            qma::config::Field {
                name: "field3".to_string(),
                accessor: "v".to_string(),
                dtype: "mystery".to_string(),
                operation: "mystery".to_string(),
            },
        ],
    };
    assert!(matches!(config.output_format(), VisualizeType::Csv));
    let def = build_table_def(&config);
    assert_eq!(def.index.accessor.name, "key");
    assert_eq!(
        def.index.accessor.accessor,
        vec!["test".to_string(), "key".to_string()]
    );
    assert!(matches!(def.index.accessor.dtype, LogValueType::String));
    assert_eq!(def.field_num(), 3);
    assert_eq!(def.fields[0].name(), "field1");
    assert!(matches!(def.fields[0].accessor.dtype, LogValueType::String));
    assert!(matches!(def.fields[0].op_type, OpType::Count));
    assert!(matches!(def.fields[1].accessor.dtype, LogValueType::Second));
    assert!(matches!(def.fields[1].op_type, OpType::Average));
    // Unknown names fall back: the unknown type, and the average operation.
    assert!(matches!(def.fields[2].accessor.dtype, LogValueType::Unknown));
    assert!(matches!(def.fields[2].op_type, OpType::Average));

    let no_format = qma::Config {
        output_format: None,
        order_by: None,
        order: None,
        index: qma::config::Index {
            name: "k".to_string(),
            accessor: "k".to_string(),
        },
        fields: vec![],
    };
    assert!(matches!(no_format.output_format(), VisualizeType::Markdown));
}

#[test]
fn format_string_pads_to_width() {
    assert_eq!(qma::format_string("abc", 6), "abc   ");
    assert_eq!(qma::format_string("abcdefgh", 3), "abcdefgh");
}

#[test]
fn wide_cells_extend_markdown_rows() {
    // Column widths come from the headers alone; a key wider than its
    // column extends the row rather than being truncated.
    let index = Index::new(Accessor::from_string("k", "k", LogValueType::String));
    let n = Field::new(
        Accessor::from_string("n", "n", LogValueType::Integer),
        OpType::Count,
    );
    let mut table = Table::new(TableDef::new(index, vec![n]));
    let lines = vec![r#"{"k":"averylongkeyvalue","n":"1"}"#.to_string()];
    table.aggregate(&lines);
    let out = display_as_markdown(&table);
    assert_eq!(
        out,
        "|k         |n         |\n\
         |:---------|:---------|\n\
         |averylongkeyvalue|         1|\n"
    );
}

#[test]
fn float_field_through_pipeline() {
    let index = Index::new(Accessor::from_string("k", "k", LogValueType::String));
    let avg = Field::new(
        Accessor::from_string("v", "v", LogValueType::Float),
        OpType::Average,
    );
    let mut table = Table::new(TableDef::new(index, vec![avg]));
    let lines = vec![
        r#"{"k":"a","v":"1.5"}"#.to_string(),
        r#"{"k":"a","v":"2.5"}"#.to_string(),
        r#"{"k":"a","v":"oops"}"#.to_string(),
    ];
    table.aggregate(&lines);
    let out = display_as_csv(&table);
    assert_eq!(out, "k,v\na,2.0000\n");
}
