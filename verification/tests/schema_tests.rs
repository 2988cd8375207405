use join_scope::schema::{
    Chain, Column, FilteredLink, IdentifierResolution, LinkToOne, Options, Reference, Schema, Table,
};

#[test]
fn references_compare_by_both_identities() {
    let a = Reference { table_id: 1, column_id: 2 };
    let b = Reference { table_id: 1, column_id: 2 };
    let c = Reference { table_id: 1, column_id: 3 };
    assert_eq!(a, b);
    assert_ne!(a, c);
}

#[test]
fn chain_needs_a_link() {
    let links: Vec<LinkToOne> = Vec::new();
    assert!(Chain::try_new(links).is_none());
}

#[test]
fn chain_needs_each_link_to_leave_the_table_where_the_last_arrived() {
    let a = LinkToOne {
        from: Reference { table_id: 1, column_id: 2 },
        to: Reference { table_id: 2, column_id: 1 },
    };
    let b = LinkToOne {
        from: Reference { table_id: 3, column_id: 1 },
        to: Reference { table_id: 4, column_id: 1 },
    };
    assert!(Chain::try_new(vec![a, b]).is_none());
    let c = LinkToOne {
        from: Reference { table_id: 2, column_id: 7 },
        to: Reference { table_id: 4, column_id: 1 },
    };
    let chain = Chain::try_new(vec![a, c]).unwrap();
    assert_eq!(chain.len(), 2);
    assert_eq!(*chain.get_first_link(), a);
    assert_eq!(*chain.get_link(1), c);
    assert_eq!(chain.links().len(), 2);
}

#[test]
fn chain_of_filtered_links_starts_at_its_first_link() {
    let link: FilteredLink<String> = FilteredLink {
        from: Reference { table_id: 1, column_id: 1 },
        to: Reference { table_id: 5, column_id: 2 },
        filter: Some(String::from("quantity > 0")),
    };
    let chain = Chain::try_new(vec![link]).unwrap();
    assert_eq!(chain.get_first_link().from, Reference { table_id: 1, column_id: 1 });
    assert_eq!(chain.get_first_link().filter.as_deref(), Some("quantity > 0"));
}

#[test]
fn options_match_names_strictly_or_ignoring_case() {
    let strict = Options { identifier_resolution: IdentifierResolution::Strict };
    let loose = Options { identifier_resolution: IdentifierResolution::IgnoreCase };
    assert!(strict.matches("orders", "orders"));
    assert!(!strict.matches("orders", "Orders"));
    assert!(!strict.matches("orders", "order"));
    assert!(loose.matches("orders", "ORDERS"));
    assert!(loose.matches("Line_Items", "line_items"));
    assert!(!loose.matches("orders", "orderz"));
    assert!(!loose.matches("orders", "orders_"));
    assert!(!loose.matches("a[", "a{"));
    assert!(!loose.matches("a@", "a`"));
}

#[test]
fn schema_finds_tables_and_columns_by_identity() {
    let schema = Schema {
        tables: vec![
            Table {
                id: 1,
                name: String::from("orders"),
                columns: vec![
                    Column { id: 1, name: String::from("id") },
                    Column { id: 2, name: String::from("customer_id") },
                ],
            },
            Table {
                id: 2,
                name: String::from("customer"),
                columns: vec![Column { id: 1, name: String::from("id") }],
            },
        ],
    };
    assert_eq!(schema.get_table(2).unwrap().name, "customer");
    assert!(schema.get_table(9).is_none());
    assert_eq!(
        schema.get_column(Reference { table_id: 1, column_id: 2 }).unwrap().name,
        "customer_id"
    );
    assert!(schema.get_column(Reference { table_id: 1, column_id: 3 }).is_none());
    assert!(schema.get_column(Reference { table_id: 7, column_id: 1 }).is_none());
    let link = LinkToOne {
        from: Reference { table_id: 1, column_id: 2 },
        to: Reference { table_id: 2, column_id: 1 },
    };
    assert_eq!(schema.get_ideal_alias_for_link_to_one(&link), "customer");
    let known = Chain::try_new(vec![link]).unwrap();
    assert!(schema.knows_chain(&known));
    let stray = LinkToOne {
        from: Reference { table_id: 1, column_id: 2 },
        to: Reference { table_id: 8, column_id: 1 },
    };
    let unknown = Chain::try_new(vec![stray]).unwrap();
    assert!(!schema.knows_chain(&unknown));
}
