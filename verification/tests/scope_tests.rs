use join_scope::join_tree::JoinTree;
use join_scope::schema::{
    Chain, Column, FilteredLink, IdentifierResolution, LinkToOne, Options, Reference, Schema, Table,
};
use join_scope::scope::{get_table_by_name, Scope};
use join_scope::sql_tree::{CtePurpose, ValueExpression, ValueViaCte};

const ORDERS: u64 = 1;
const CUSTOMER: u64 = 2;
const COUNTRY: u64 = 3;
const ACCOUNT_MANAGER: u64 = 4;
const LINE_ITEMS: u64 = 5;

fn table(id: u64, name: &str, columns: &[(u64, &str)]) -> Table {
    Table {
        id,
        name: String::from(name),
        columns: columns.iter().map(|c| Column { id: c.0, name: String::from(c.1) }).collect(),
    }
}

fn shop() -> Schema {
    Schema {
        tables: vec![
            table(
                ORDERS,
                "orders",
                &[
                    (1, "id"),
                    (2, "customer_id"),
                    (3, "billing_customer_id"),
                    (4, "shipping_customer_id"),
                ],
            ),
            table(CUSTOMER, "customer", &[(1, "id"), (2, "country_id"), (3, "account_manager_id")]),
            table(COUNTRY, "country", &[(1, "id")]),
            table(ACCOUNT_MANAGER, "account_manager", &[(1, "id")]),
            table(LINE_ITEMS, "line_items", &[(1, "id"), (2, "order_id"), (3, "price")]),
        ],
    }
}

fn strict() -> Options {
    Options { identifier_resolution: IdentifierResolution::Strict }
}

fn link(from_table: u64, from_column: u64, to_table: u64, to_column: u64) -> LinkToOne {
    LinkToOne {
        from: Reference { table_id: from_table, column_id: from_column },
        to: Reference { table_id: to_table, column_id: to_column },
    }
}

fn orders_to_customer() -> LinkToOne {
    link(ORDERS, 2, CUSTOMER, 1)
}

fn customer_to_country() -> LinkToOne {
    link(CUSTOMER, 2, COUNTRY, 1)
}

fn customer_to_account_manager() -> LinkToOne {
    link(CUSTOMER, 3, ACCOUNT_MANAGER, 1)
}

fn chain(links: Vec<LinkToOne>) -> Chain<LinkToOne> {
    Chain::try_new(links).unwrap()
}

fn orders_to_line_items() -> Chain<FilteredLink<String>> {
    Chain::try_new(vec![FilteredLink {
        from: Reference { table_id: ORDERS, column_id: 1 },
        to: Reference { table_id: LINE_ITEMS, column_id: 2 },
        filter: None,
    }])
    .unwrap()
}

fn sum_of_prices(
    _chain: Chain<FilteredLink<String>>,
    _final_column_name: Option<String>,
    compositions: Vec<String>,
    _scope: &Scope<String>,
    _purpose: CtePurpose,
) -> Result<ValueViaCte<String, String>, String> {
    Ok(ValueViaCte {
        select: String::from("select order_id, sum(price) as v1 from line_items group by order_id"),
        value_alias: String::from("v1"),
        compositions,
    })
}

fn to_many(
    scope: &mut Scope<String>,
    head: &Option<Chain<LinkToOne>>,
) -> Result<ValueExpression<String>, String> {
    scope.join_chain_to_many(
        head,
        orders_to_line_items(),
        None,
        Vec::new(),
        CtePurpose::ValueExtraction,
        sum_of_prices,
    )
}

#[test]
fn one_chain_joined_twice_is_one_join() {
    let (options, schema) = (strict(), shop());
    let mut scope: Scope<String> = Scope::build(&options, &schema, "orders").unwrap();
    let path = chain(vec![orders_to_customer()]);
    assert_eq!(scope.join_chain_to_one(&path), "customer");
    assert_eq!(scope.join_chain_to_one(&path), "customer");
    let tree = scope.take_join_tree();
    assert_eq!(tree.len(), 2);
    assert_eq!(tree.get_alias(0), "orders");
    assert_eq!(tree.get_alias(1), "customer");
    assert_eq!(tree.get_children(0), &vec![1]);
    assert_eq!(tree.get_parent(1), Some(0));
    assert_eq!(tree.get_link(1), Some(orders_to_customer()));
}

#[test]
fn chains_share_the_joins_of_their_common_start() {
    let (options, schema) = (strict(), shop());
    let mut scope: Scope<String> = Scope::build(&options, &schema, "orders").unwrap();
    let to_country = chain(vec![orders_to_customer(), customer_to_country()]);
    let to_manager = chain(vec![orders_to_customer(), customer_to_account_manager()]);
    assert_eq!(scope.join_chain_to_one(&to_country), "country");
    assert_eq!(scope.join_chain_to_one(&to_manager), "account_manager");
    let tree = scope.take_join_tree();
    assert_eq!(tree.len(), 4);
    assert_eq!(tree.get_alias(0), "orders");
    assert_eq!(tree.get_children(0), &vec![1]);
    assert_eq!(tree.get_alias(1), "customer");
    assert_eq!(tree.get_children(1), &vec![2, 3]);
    assert_eq!(tree.get_alias(2), "country");
    assert_eq!(tree.get_alias(3), "account_manager");
    assert!(tree.get_children(2).is_empty());
    assert!(tree.get_children(3).is_empty());
    assert_eq!(tree.get_parent(0), None);
    assert_eq!(tree.get_parent(2), Some(1));
    assert_eq!(tree.get_parent(3), Some(1));
    assert_eq!(tree.find(Some(&to_country)), Some(2));
    assert_eq!(tree.find(Some(&to_manager)), Some(3));
    assert_eq!(tree.find(Some(&chain(vec![orders_to_customer()]))), Some(1));
    assert_eq!(tree.find(None), Some(0));
    assert_eq!(tree.find(Some(&chain(vec![customer_to_country()]))), None);
}

#[test]
fn chains_that_part_ways_get_joins_of_their_own_from_there() {
    let (options, schema) = (strict(), shop());
    let mut scope: Scope<String> = Scope::build(&options, &schema, "orders").unwrap();
    let billing = link(ORDERS, 3, CUSTOMER, 1);
    let shipping = link(ORDERS, 4, CUSTOMER, 1);
    let first = chain(vec![billing, customer_to_country()]);
    let second = chain(vec![shipping, customer_to_country()]);
    assert_eq!(scope.join_chain_to_one(&first), "country");
    assert_eq!(scope.join_chain_to_one(&second), "country_1");
    let tree = scope.take_join_tree();
    assert_eq!(tree.len(), 5);
    assert_eq!(tree.get_children(0), &vec![1, 3]);
    assert_eq!(tree.get_alias(1), "customer");
    assert_eq!(tree.get_alias(2), "country");
    assert_eq!(tree.get_alias(3), "customer_1");
    assert_eq!(tree.get_alias(4), "country_1");
    assert_eq!(tree.get_children(1), &vec![2]);
    assert_eq!(tree.get_children(3), &vec![4]);
}

#[test]
fn one_ideal_alias_for_two_links_gets_a_suffix() {
    let (options, schema) = (strict(), shop());
    let mut scope: Scope<String> = Scope::build(&options, &schema, "orders").unwrap();
    let billing = chain(vec![link(ORDERS, 3, CUSTOMER, 1)]);
    let shipping = chain(vec![link(ORDERS, 4, CUSTOMER, 1)]);
    assert_eq!(scope.join_chain_to_one(&billing), "customer");
    assert_eq!(scope.join_chain_to_one(&shipping), "customer_1");
    assert_eq!(scope.join_chain_to_one(&billing), "customer");
    assert_eq!(scope.join_chain_to_one(&shipping), "customer_1");
}

#[test]
fn to_many_chain_becomes_a_derived_table() {
    let (options, schema) = (strict(), shop());
    let mut scope: Scope<String> = Scope::build(&options, &schema, "orders").unwrap();
    let value = to_many(&mut scope, &None).unwrap();
    assert_eq!(value.base.table_alias, "cte0");
    assert_eq!(value.base.column_name, "v1");
    assert!(value.compositions.is_empty());
    let tree = scope.take_join_tree();
    assert_eq!(tree.len(), 1);
    assert!(tree.is_cte_join(0));
    assert_eq!(tree.cte_count(0), 1);
    let cte = tree.get_cte(0, 0);
    assert_eq!(cte.alias, "cte0");
    assert_eq!(cte.join_column_name, "id");
    assert_eq!(cte.purpose, CtePurpose::ValueExtraction);
    assert_eq!(
        cte.select,
        "select order_id, sum(price) as v1 from line_items group by order_id"
    );
}

#[test]
fn leftover_compositions_come_back_with_the_value() {
    let (options, schema) = (strict(), shop());
    let mut scope: Scope<String> = Scope::build(&options, &schema, "orders").unwrap();
    let value = scope
        .join_chain_to_many(
            &None,
            orders_to_line_items(),
            Some(String::from("price")),
            vec![String::from("round"), String::from("abs")],
            CtePurpose::RowSelection,
            sum_of_prices,
        )
        .unwrap();
    assert_eq!(value.compositions, vec![String::from("round"), String::from("abs")]);
    let tree = scope.take_join_tree();
    assert_eq!(tree.get_cte(0, 0).purpose, CtePurpose::RowSelection);
}

#[test]
fn derived_table_at_the_end_of_a_chain_replaces_the_table_join() {
    let (options, schema) = (strict(), shop());
    let mut scope: Scope<String> = Scope::build(&options, &schema, "orders").unwrap();
    let path = chain(vec![orders_to_customer()]);
    assert_eq!(scope.join_chain_to_one(&path), "customer");
    let head = Some(chain(vec![orders_to_customer()]));
    let value = to_many(&mut scope, &head).unwrap();
    assert_eq!(value.base.table_alias, "cte0");
    let again = to_many(&mut scope, &head).unwrap();
    assert_eq!(again.base.table_alias, "cte1");
    assert_eq!(scope.join_chain_to_one(&path), "customer");
    let tree = scope.take_join_tree();
    assert_eq!(tree.len(), 2);
    assert!(!tree.is_cte_join(0));
    assert_eq!(tree.cte_count(0), 0);
    assert!(tree.is_cte_join(1));
    assert_eq!(tree.cte_count(1), 2);
    assert_eq!(tree.get_cte(1, 0).alias, "cte0");
    assert_eq!(tree.get_cte(1, 1).alias, "cte1");
    assert_eq!(tree.get_alias(1), "customer");
}

#[test]
fn derived_table_makes_the_joins_of_its_head() {
    let (options, schema) = (strict(), shop());
    let mut scope: Scope<String> = Scope::build(&options, &schema, "orders").unwrap();
    let head = Some(chain(vec![orders_to_customer(), customer_to_country()]));
    let value = to_many(&mut scope, &head).unwrap();
    assert_eq!(value.base.table_alias, "cte0");
    let tree = scope.take_join_tree();
    assert_eq!(tree.len(), 3);
    assert_eq!(tree.get_alias(1), "customer");
    assert_eq!(tree.get_alias(2), "country");
    assert!(!tree.is_cte_join(1));
    assert!(tree.is_cte_join(2));
}

#[test]
fn derived_table_names_skip_what_is_taken_and_never_go_back() {
    let (options, schema) = (strict(), shop());
    let mut scope: Scope<String> = Scope::build(&options, &schema, "orders").unwrap();
    assert_eq!(scope.get_alias("cte1"), "cte1");
    assert_eq!(to_many(&mut scope, &None).unwrap().base.table_alias, "cte0");
    assert_eq!(to_many(&mut scope, &None).unwrap().base.table_alias, "cte2");
    assert_eq!(scope.get_alias("cte3"), "cte3");
    assert_eq!(scope.get_alias("cte0"), "cte0_1");
    assert_eq!(to_many(&mut scope, &None).unwrap().base.table_alias, "cte4");
}

#[test]
fn refused_conversion_comes_back_as_it_is() {
    let (options, schema) = (strict(), shop());
    let mut scope: Scope<String> = Scope::build(&options, &schema, "orders").unwrap();
    let refused: Result<ValueExpression<String>, String> = scope.join_chain_to_many(
        &None,
        orders_to_line_items(),
        None,
        vec![String::from("median")],
        CtePurpose::ValueExtraction,
        |_chain, _column, _compositions: Vec<String>, _scope: &Scope<String>, _purpose| {
            Err(String::from("median cannot be applied to text"))
        },
    );
    assert_eq!(refused.err(), Some(String::from("median cannot be applied to text")));
    assert_eq!(to_many(&mut scope, &None).unwrap().base.table_alias, "cte0");
    let tree = scope.take_join_tree();
    assert_eq!(tree.cte_count(0), 1);
}

#[test]
fn conversion_sees_the_scope_and_may_spawn_from_it() {
    let (options, schema) = (strict(), shop());
    let mut scope: Scope<String> = Scope::build(&options, &schema, "orders").unwrap();
    let line_items = schema.get_table(LINE_ITEMS).unwrap();
    let value = scope
        .join_chain_to_many(
            &None,
            orders_to_line_items(),
            None,
            Vec::new(),
            CtePurpose::ValueExtraction,
            |_chain, _column, compositions: Vec<String>, parent: &Scope<String>, _purpose| {
                let mut child = parent.spawn(line_items);
                let alias = child.get_alias("v");
                Ok(ValueViaCte {
                    select: child.get_indentation(),
                    value_alias: alias,
                    compositions,
                })
            },
        )
        .unwrap();
    assert_eq!(value.base.column_name, "v");
    let tree = scope.take_join_tree();
    assert_eq!(tree.get_cte(0, 0).select, "    ");
}

#[test]
fn missing_base_table_is_named_in_the_error() {
    let (options, schema) = (strict(), shop());
    let built: Result<Scope<String>, String> = Scope::build(&options, &schema, "invoices");
    assert_eq!(built.err(), Some(String::from("Base table `invoices` does not exist.")));
}

#[test]
fn base_table_is_found_by_the_rule_of_the_options() {
    let schema = shop();
    let strict = strict();
    let loose = Options { identifier_resolution: IdentifierResolution::IgnoreCase };
    assert!(Scope::<String>::build(&strict, &schema, "Orders").is_err());
    let scope: Scope<String> = Scope::build(&loose, &schema, "Orders").unwrap();
    assert_eq!(scope.get_base_table().id, ORDERS);
    assert_eq!(scope.get_base_table().name, "orders");
    assert_eq!(scope.get_table_by_name("LINE_ITEMS").unwrap().id, LINE_ITEMS);
    assert!(scope.get_table_by_name("line-items").is_none());
    assert_eq!(get_table_by_name(&strict, &schema, "customer").unwrap().id, CUSTOMER);
    assert!(get_table_by_name(&strict, &schema, "Customer").is_none());
}

#[test]
fn first_table_that_answers_to_a_name_is_taken() {
    let schema = Schema {
        tables: vec![table(7, "Orders", &[]), table(8, "orders", &[])],
    };
    let strict = strict();
    let loose = Options { identifier_resolution: IdentifierResolution::IgnoreCase };
    assert_eq!(get_table_by_name(&strict, &schema, "orders").unwrap().id, 8);
    assert_eq!(get_table_by_name(&loose, &schema, "orders").unwrap().id, 7);
}

#[test]
fn new_scope_is_empty() {
    let (options, schema) = (strict(), shop());
    let mut scope: Scope<String> = Scope::build(&options, &schema, "orders").unwrap();
    assert_eq!(scope.get_indentation_level(), 0);
    assert_eq!(scope.get_indentation(), "");
    assert_eq!(scope.get_base_table().name, "orders");
    let tree: JoinTree<String> = scope.take_join_tree();
    assert_eq!(tree.len(), 1);
    assert_eq!(tree.get_alias(0), "orders");
    assert_eq!(tree.get_link(0), None);
    assert!(!tree.is_cte_join(0));
}

#[test]
fn aliases_are_never_handed_out_twice() {
    let (options, schema) = (strict(), shop());
    let mut scope: Scope<String> = Scope::build(&options, &schema, "orders").unwrap();
    let mut handed_out: Vec<String> = Vec::new();
    for ideal in ["customer", "customer", "customer_1", "customer", "cte0", "customer_1"] {
        handed_out.push(scope.get_alias(ideal));
    }
    handed_out.push(scope.join_chain_to_one(&chain(vec![orders_to_customer()])));
    handed_out.push(to_many(&mut scope, &None).unwrap().base.table_alias);
    assert_eq!(
        handed_out,
        vec![
            "customer",
            "customer_1",
            "customer_1_1",
            "customer_2",
            "cte0",
            "customer_1_2",
            "customer_3",
            "cte1",
        ]
    );
    for i in 0..handed_out.len() {
        for j in 0..i {
            assert_ne!(handed_out[i], handed_out[j]);
        }
    }
}

#[test]
fn same_requests_give_the_same_aliases() {
    let (options, schema) = (strict(), shop());
    let run = || {
        let mut scope: Scope<String> = Scope::build(&options, &schema, "orders").unwrap();
        let mut handed_out: Vec<String> = Vec::new();
        for ideal in ["a", "b", "a", "a_1", "a", "b"] {
            handed_out.push(scope.get_alias(ideal));
        }
        handed_out
    };
    assert_eq!(run(), run());
    assert_eq!(run(), vec!["a", "b", "a_1", "a_1_1", "a_2", "b_1"]);
}

#[test]
fn suffixes_go_past_nine() {
    let (options, schema) = (strict(), shop());
    let mut scope: Scope<String> = Scope::build(&options, &schema, "orders").unwrap();
    let mut last = String::new();
    for _ in 0..12 {
        last = scope.get_alias("t");
    }
    assert_eq!(last, "t_11");
}

#[test]
fn indentation_is_back_where_it_was() {
    let (options, schema) = (strict(), shop());
    let mut scope: Scope<String> = Scope::build(&options, &schema, "orders").unwrap();
    let inside = scope.indented(|s| (s.get_indentation_level(), s.get_indentation()));
    assert_eq!(inside, (1, String::from("    ")));
    assert_eq!(scope.get_indentation_level(), 0);
    let failed: Result<(), String> = scope.indented(|s| {
        s.indented(|t| {
            assert_eq!(t.get_indentation_level(), 2);
            assert_eq!(t.get_indentation(), "        ");
            Err(String::from("no"))
        })
    });
    assert_eq!(failed, Err(String::from("no")));
    assert_eq!(scope.get_indentation_level(), 0);
}

#[test]
fn child_scope_has_aliases_of_its_own() {
    let (options, schema) = (strict(), shop());
    let mut parent: Scope<String> = Scope::build(&options, &schema, "orders").unwrap();
    assert_eq!(parent.get_alias("customer"), "customer");
    assert_eq!(to_many(&mut parent, &None).unwrap().base.table_alias, "cte0");
    let line_items = schema.get_table(LINE_ITEMS).unwrap();
    let mut child = parent.spawn(line_items);
    assert_eq!(child.get_indentation_level(), 1);
    assert_eq!(child.get_base_table().name, "line_items");
    assert_eq!(child.get_alias("customer"), "customer");
    assert_eq!(to_many(&mut child, &None).unwrap().base.table_alias, "cte0");
    assert_eq!(child.get_alias("child_only"), "child_only");
    assert_eq!(parent.get_alias("child_only"), "child_only");
    assert_eq!(parent.get_alias("customer"), "customer_1");
    assert_eq!(to_many(&mut parent, &None).unwrap().base.table_alias, "cte1");
    assert_eq!(parent.get_indentation_level(), 0);
    let grandchild = child.spawn(line_items);
    assert_eq!(grandchild.get_indentation_level(), 2);
    let tree = child.take_join_tree();
    assert_eq!(tree.get_alias(0), "line_items");
    assert_eq!(tree.cte_count(0), 1);
}

#[test]
fn taking_the_tree_leaves_a_fresh_one_and_keeps_the_aliases() {
    let (options, schema) = (strict(), shop());
    let mut scope: Scope<String> = Scope::build(&options, &schema, "orders").unwrap();
    let path = chain(vec![orders_to_customer()]);
    assert_eq!(scope.join_chain_to_one(&path), "customer");
    let taken = scope.take_join_tree();
    assert_eq!(taken.len(), 2);
    let fresh = scope.take_join_tree();
    assert_eq!(fresh.len(), 1);
    assert_eq!(fresh.get_alias(0), "orders");
    assert_eq!(scope.join_chain_to_one(&path), "customer_1");
}

#[test]
fn indentation_never_goes_below_zero() {
    let (options, schema) = (strict(), shop());
    let mut scope: Scope<String> = Scope::build(&options, &schema, "orders").unwrap();
    scope.indented(|s| {
        *s = Scope::build(&options, &schema, "customer").unwrap();
    });
    assert_eq!(scope.get_indentation_level(), 0);
    assert_eq!(scope.get_base_table().name, "customer");
}

#[test]
fn indentation_comes_up_one_level_from_where_the_computation_left_it() {
    let (options, schema) = (strict(), shop());
    let mut scope: Scope<String> = Scope::build(&options, &schema, "orders").unwrap();
    let customer = schema.get_table(CUSTOMER).unwrap();
    scope.indented(|s| {
        let child = s.spawn(customer);
        *s = child;
    });
    assert_eq!(scope.get_indentation_level(), 1);
}
