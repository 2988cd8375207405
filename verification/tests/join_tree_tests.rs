use join_scope::alias::AliasSet;
use join_scope::join_tree::JoinTree;
use join_scope::schema::{Chain, Column, LinkToOne, Reference, Schema, Table};
use join_scope::sql_tree::{Cte, CtePurpose};

fn schema() -> Schema {
    let table = |id: u64, name: &str| Table {
        id,
        name: String::from(name),
        columns: vec![Column { id: 1, name: String::from("id") }],
    };
    Schema {
        tables: vec![table(1, "film"), table(2, "studio"), table(3, "city"), table(4, "studio")],
    }
}

fn link(from_table: u64, from_column: u64, to_table: u64) -> LinkToOne {
    LinkToOne {
        from: Reference { table_id: from_table, column_id: from_column },
        to: Reference { table_id: to_table, column_id: 1 },
    }
}

fn cte(alias: &str) -> Cte<u32> {
    Cte {
        select: 7,
        alias: String::from(alias),
        purpose: CtePurpose::ValueExtraction,
        join_column_name: String::from("id"),
    }
}

#[test]
fn tree_starts_with_its_root() {
    let tree: JoinTree<u32> = JoinTree::new(String::from("film"));
    assert_eq!(tree.len(), 1);
    assert_eq!(tree.get_alias(0), "film");
    assert_eq!(tree.get_parent(0), None);
    assert_eq!(tree.get_link(0), None);
    assert!(tree.get_children(0).is_empty());
    assert_eq!(tree.cte_count(0), 0);
    assert!(!tree.is_cte_join(0));
    assert_eq!(tree.find(None), Some(0));
    assert_eq!(tree.find_child(0, &link(1, 2, 2)), None);
}

#[test]
fn absent_chain_returns_the_root_alias() {
    let schema = schema();
    let mut aliases = AliasSet::new();
    let mut tree: JoinTree<u32> = JoinTree::new(String::from("film"));
    assert_eq!(tree.integrate_chain(&schema, &mut aliases, None, None), "film");
    assert_eq!(tree.len(), 1);
    assert_eq!(aliases.len(), 0);
}

#[test]
fn links_are_told_apart_by_both_ends() {
    let schema = schema();
    let mut aliases = AliasSet::new();
    let mut tree: JoinTree<u32> = JoinTree::new(String::from("film"));
    let by_studio = Chain::try_new(vec![link(1, 2, 2)]).unwrap();
    let by_other_column = Chain::try_new(vec![link(1, 3, 2)]).unwrap();
    let by_other_table = Chain::try_new(vec![link(1, 2, 4)]).unwrap();
    assert_eq!(tree.integrate_chain(&schema, &mut aliases, Some(&by_studio), None), "studio");
    assert_eq!(
        tree.integrate_chain(&schema, &mut aliases, Some(&by_other_column), None),
        "studio_1"
    );
    assert_eq!(
        tree.integrate_chain(&schema, &mut aliases, Some(&by_other_table), None),
        "studio_2"
    );
    assert_eq!(tree.integrate_chain(&schema, &mut aliases, Some(&by_studio), None), "studio");
    assert_eq!(tree.len(), 4);
    assert_eq!(tree.get_children(0), &vec![1, 2, 3]);
    assert_eq!(tree.find_child(0, &link(1, 3, 2)), Some(2));
    assert_eq!(tree.find_child(0, &link(1, 4, 2)), None);
    assert_eq!(tree.find_child(1, &link(1, 3, 2)), None);
    assert!(aliases.contains(&String::from("studio_2")));
    assert!(!aliases.contains(&String::from("studio_3")));
    assert_eq!(aliases.len(), 3);
}

#[test]
fn taken_names_push_node_aliases_on() {
    let schema = schema();
    let mut aliases = AliasSet::new();
    assert!(aliases.insert(String::from("studio")));
    assert!(aliases.insert(String::from("studio_1")));
    assert!(!aliases.insert(String::from("studio")));
    let mut tree: JoinTree<u32> = JoinTree::new(String::from("film"));
    let path = Chain::try_new(vec![link(1, 2, 2), link(2, 2, 3)]).unwrap();
    assert_eq!(tree.integrate_chain(&schema, &mut aliases, Some(&path), None), "city");
    assert_eq!(tree.get_alias(1), "studio_2");
    assert_eq!(tree.get_alias(2), "city");
    assert_eq!(aliases.len(), 4);
}

#[test]
fn derived_tables_gather_at_their_node_oldest_first() {
    let schema = schema();
    let mut aliases = AliasSet::new();
    let mut tree: JoinTree<u32> = JoinTree::new(String::from("film"));
    let path = Chain::try_new(vec![link(1, 2, 2)]).unwrap();
    assert!(aliases.insert(String::from("cte0")));
    assert!(aliases.insert(String::from("cte1")));
    assert!(aliases.insert(String::from("cte2")));
    assert_eq!(tree.integrate_chain(&schema, &mut aliases, None, Some(cte("cte0"))), "cte0");
    assert_eq!(tree.integrate_chain(&schema, &mut aliases, Some(&path), Some(cte("cte1"))), "cte1");
    assert_eq!(tree.integrate_chain(&schema, &mut aliases, None, Some(cte("cte2"))), "cte2");
    assert_eq!(tree.len(), 2);
    assert!(tree.is_cte_join(0));
    assert!(tree.is_cte_join(1));
    assert_eq!(tree.cte_count(0), 2);
    assert_eq!(tree.get_cte(0, 0).alias, "cte0");
    assert_eq!(tree.get_cte(0, 1).alias, "cte2");
    assert_eq!(tree.get_cte(1, 0).alias, "cte1");
    assert_eq!(tree.get_cte(1, 0).select, 7);
    assert_eq!(tree.get_alias(1), "studio");
    assert_eq!(tree.integrate_chain(&schema, &mut aliases, Some(&path), None), "studio");
}
