use order_desk::desk::{
    import_cancelled, import_result, list_item, list_item_unreadable, order_duplicate, order_new,
    order_open, order_print, order_save, order_save_as, sort_latest_first, suggested_file_name,
    text_less,
};
use order_desk::jobs::{for_each_job_from_sql, tuple_to_order, JobScan};
use order_desk::order::{Order, OrderListItem};
use order_desk::strmap::StrMap;

fn sample() -> Order {
    let mut o = order_new("0000042", "2026092503", "2026-09-25T08:00:00Z");
    o.fields.insert("customer".to_string(), "ACME".to_string());
    o.cks.insert("urgent".to_string(), true);
    o
}

#[test]
fn new_orders_carry_number_contract_and_time() {
    let o = order_new("0000042", "2026092503", "2026-09-25T08:00:00Z");
    assert_eq!(o.order_no, "0000042");
    assert_eq!(o.meta.id, "0000042");
    assert_eq!(o.meta.file_name, "0000042.json");
    assert_eq!(o.meta.created_at, "2026-09-25T08:00:00Z");
    assert_eq!(o.meta.updated_at, "2026-09-25T08:00:00Z");
    assert_eq!(o.fields.get("contractNo").unwrap(), "2026092503");
    assert_eq!(o.fields.get("mSales_Confirmation_No").unwrap(), "2026092503");
    assert_eq!(o.fields.len(), 2);
    assert!(o.cks.is_empty());
}

#[test]
fn saving_settles_the_file_name() {
    let r = order_save(sample(), "2026-09-26T00:00:00Z");
    assert_eq!(r.file_name, "0000042.json");
    assert_eq!(r.order.meta.updated_at, "2026-09-26T00:00:00Z");
    assert_eq!(r.order.meta.created_at, "2026-09-25T08:00:00Z");

    let mut o = sample();
    o.meta.file_name = "draft".to_string();
    assert_eq!(order_save(o, "t").file_name, "0000042.json");

    let mut o = Order::default();
    o.order_no = "77".to_string();
    assert_eq!(order_save(o, "t").file_name, "77.json");
    assert_eq!(order_save(Order::default(), "t").file_name, "order.json");

    let mut o = sample();
    o.meta.file_name = "mine.json".to_string();
    assert_eq!(order_save(o, "t").order.meta.file_name, "mine.json");
}

#[test]
fn opening_and_saving_elsewhere_rename_the_file() {
    assert_eq!(order_open(sample(), "x.json".to_string()).meta.file_name, "x.json");
    assert_eq!(suggested_file_name(&sample()), "0000042.json");
    let mut o = Order::default();
    o.meta.id = "abc".to_string();
    assert_eq!(suggested_file_name(&o), "abc.json");
    assert_eq!(suggested_file_name(&Order::default()), "工单.json");
    let r = order_save_as(sample(), "copy.json".to_string());
    assert_eq!(r.file_name, "copy.json");
    assert_eq!(r.order.meta.file_name, "copy.json");
    assert_eq!(r.order.order_no, "0000042");
}

#[test]
fn duplicates_get_new_numbers_and_dates() {
    let mut o = sample();
    o.fields.insert("deliverDate".to_string(), "2026-10-01".to_string());
    let d = order_duplicate(&o, "0000043", "2026092504", "2026 年 9 月 25 日");
    assert_eq!(d.order_no, "0000043");
    assert_eq!(d.meta.id, "0000043");
    assert_eq!(d.meta.file_name, "0000043.json");
    assert_eq!(d.meta.created_at, "2026-09-25T08:00:00Z");
    assert_eq!(d.meta.created_at, o.meta.created_at);
    assert_eq!(d.meta.updated_at, o.meta.updated_at);
    assert_eq!(d.fields.get("customer").unwrap(), "ACME");
    assert_eq!(d.fields.get("orderNoDisplay").unwrap(), "No. 0000043");
    assert_eq!(d.fields.get("mJob_No").unwrap(), "No. 0000043");
    assert_eq!(d.fields.get("contractNo").unwrap(), "2026092504");
    assert_eq!(d.fields.get("mSales_Confirmation_No").unwrap(), "2026092504");
    assert_eq!(d.fields.get("mJob_Date").unwrap(), "2026 年 9 月 25 日");
    assert_eq!(d.fields.get("openDate").unwrap(), "2026 年 9 月 25 日");
    assert_eq!(d.fields.get("mFinished_Date").unwrap(), "");
    assert_eq!(d.fields.get("deliverDate").unwrap(), "");
    assert_eq!(d.cks.get("urgent"), Some(&true));
    assert_eq!(o.fields.get("deliverDate").unwrap(), "2026-10-01");
}

#[test]
fn list_lines_pick_number_and_name() {
    let mut o = sample();
    o.fields.insert("orderNoDisplay".to_string(), "No. No. 0022379 ".to_string());
    let item = list_item("0000042.json".to_string(), &o);
    assert_eq!(item.order_no, "0022379");
    assert_eq!(item.product_name, "ACME");
    assert_eq!(item.id, "0000042");
    assert_eq!(item.updated_at, "2026-09-25T08:00:00Z");

    let mut o = Order::default();
    o.order_no = "9".to_string();
    o.fields.insert("orderNoDisplay".to_string(), "No. ".to_string());
    o.fields.insert("orderNo".to_string(), "8".to_string());
    o.fields.insert("customer".to_string(), String::new());
    o.fields.insert("productSpec".to_string(), "box".to_string());
    let item = list_item("f.json".to_string(), &o);
    assert_eq!(item.order_no, "8");
    assert_eq!(item.product_name, "box");

    let mut o = Order::default();
    o.order_no = "9".to_string();
    o.fields.insert("orderNo".to_string(), String::new());
    let item = list_item("f.json".to_string(), &o);
    assert_eq!(item.order_no, "9");
    assert_eq!(item.product_name, "");

    let bad = list_item_unreadable("broken.json.json".to_string());
    assert_eq!(bad.id, "broken");
    assert_eq!(bad.file_name, "broken.json.json");
    assert_eq!(bad.order_no, "");
}

fn line(id: &str, at: &str) -> OrderListItem {
    OrderListItem {
        id: id.to_string(),
        file_name: format!("{id}.json"),
        order_no: String::new(),
        product_name: String::new(),
        updated_at: at.to_string(),
    }
}

#[test]
fn the_list_shows_latest_first_and_keeps_ties_in_order() {
    let items = vec![
        line("a", "2026-01-01"),
        line("b", "2026-03-01"),
        line("c", ""),
        line("d", "2026-03-01"),
        line("e", "2026-02-01"),
    ];
    let ids: Vec<String> = sort_latest_first(items).into_iter().map(|i| i.id).collect();
    assert_eq!(ids, vec!["b", "d", "e", "a", "c"]);
    assert!(sort_latest_first(Vec::new()).is_empty());
    assert!(text_less("2026", "2027"));
    assert!(text_less("", "a"));
    assert!(!text_less("a", "a"));
    assert!(text_less("z", "é"));
}

#[test]
fn print_and_import_messages() {
    let p = order_print();
    assert!(p.ok);
    assert_eq!(p.msg, "请在弹出的打印对话框中选择打印机");
    let r = import_result(0, 0, 0);
    assert_eq!((r.count, r.skipped), (0, 0));
    assert_eq!(r.message, "SQL 中未找到 t_job 工单数据");
    assert_eq!(import_result(0, 2, 1).message, "未导入工单，跳过 3 条无效数据行");
    assert_eq!(import_result(12, 0, 0).message, "已导入 12 条工单");
    let r = import_result(12, 3, 2);
    assert_eq!(r.skipped, 5);
    assert_eq!(r.message, "已导入 12 条工单，跳过 5 条");
    let c = import_cancelled();
    assert_eq!((c.count, c.skipped), (0, 0));
    assert_eq!(c.message, "已取消导入");
}

#[test]
fn string_maps_keep_one_value_per_key() {
    let mut m: StrMap<String> = StrMap::new();
    assert!(m.is_empty());
    m.insert("a".to_string(), "1".to_string());
    m.insert("b".to_string(), "2".to_string());
    m.insert("a".to_string(), "3".to_string());
    assert_eq!(m.len(), 2);
    assert_eq!(m.get("a").unwrap(), "3");
    assert!(m.contains_key("b"));
    assert!(!m.contains_key("c"));
    assert_eq!(m.get("c"), None);
    let d = m.duplicate();
    assert_eq!(d.get("b").unwrap(), "2");
}

#[test]
fn rows_without_values_or_numbers_make_no_order() {
    let cols = vec!["mJob_No".to_string(), "x".to_string()];
    assert!(tuple_to_order(&cols, &[None, None], "t").is_none());
    assert!(tuple_to_order(&cols, &[None, Some("v".to_string())], "t").is_none());
    assert!(tuple_to_order(&cols, &[Some(" No. ".to_string())], "t").is_none());
    let o = tuple_to_order(&cols, &[Some("No.5".to_string()), Some("v".to_string()), Some("extra".to_string())], "t").unwrap();
    assert_eq!(o.order_no, "5");
    assert_eq!(o.fields.len(), 2);
    let dup = vec!["mJob_No".to_string(), "x".to_string(), "x".to_string()];
    let o = tuple_to_order(&dup, &[Some("1".to_string()), None, Some("late".to_string())], "t").unwrap();
    assert_eq!(o.fields.get("x").unwrap(), "late");
    let o = tuple_to_order(&dup, &[Some("1".to_string()), Some("first".to_string()), Some("late".to_string())], "t").unwrap();
    assert_eq!(o.fields.get("x").unwrap(), "first");
}

#[test]
fn every_job_row_is_imported_or_skipped() {
    let sql = "\
INSERT INTO `t_job` (`mJob_No`,`a`) VALUES ('1','x'),('2','y'),('1','z'),(NULL,'w');
INSERT INTO t_other VALUES ('9');
insert into T_JOB (`a`) VALUES ('only a');
INSERT INTO `t_job` VALUES ('3');
";
    let (orders, skipped) = for_each_job_from_sql(sql, "now");
    let nos: Vec<&str> = orders.iter().map(|o| o.order_no.as_str()).collect();
    assert_eq!(nos, vec!["1", "2"]);
    assert_eq!(orders.len() + skipped, 6);
    assert_eq!(skipped, 4);
}

#[test]
fn a_scan_hands_out_orders_one_at_a_time() {
    let sql = "INSERT INTO `t_job` (`mJob_No`) VALUES ('1'),('1'),('2');\nINSERT INTO `t_job` (`mJob_No`) VALUES ('3');";
    let mut scan = JobScan::new(sql, "now");
    let mut nos = Vec::new();
    while let Some(o) = scan.next_job(sql) {
        nos.push(o.order_no);
    }
    assert_eq!(nos, vec!["1", "2", "3"]);
    assert_eq!(scan.skipped(), 1);
    assert!(scan.next_job(sql).is_none());
}
