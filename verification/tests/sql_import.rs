use order_desk::jobs::{for_each_job_from_sql, JOB_TABLE};
use order_desk::order::{clean_order_no, Order};
use order_desk::sql::{create_table_columns, read_sql_string};

const NOW: &str = "2026-09-25T00:00:00Z";

fn parse(sql: &str) -> (Vec<Order>, usize) {
    for_each_job_from_sql(sql, NOW)
}

#[test]
fn parse_with_column_list_and_escapes() {
    let sql = "\
INSERT INTO `t_job` (`t_Job_ID`, `mJob_No`, `mRemarks`, `mQty_Job`, `mUnit`) VALUES (1,'0022379','第一行\\n第二行',1000,'个'),(2,'0022380','含\\'引号\\' 与 ''双写''',NULL,'张');
";
    let (orders, skipped) = parse(sql);
    assert_eq!(skipped, 0);
    assert_eq!(orders.len(), 2);

    let a = &orders[0];
    assert_eq!(a.order_no, "0022379");
    assert_eq!(a.meta.file_name, "0022379.json");
    assert_eq!(a.meta.id, "0022379");
    assert_eq!(a.meta.created_at, NOW);
    assert_eq!(a.fields.get("mRemarks").unwrap(), "第一行\n第二行");
    assert_eq!(a.fields.get("mUnit").unwrap(), "个");
    assert_eq!(a.fields.get("t_Job_ID").unwrap(), "1");
    assert!(a.cks.is_empty());

    let b = &orders[1];
    assert_eq!(b.order_no, "0022380");
    assert_eq!(b.fields.get("mRemarks").unwrap(), "含'引号' 与 '双写'");
    assert!(!b.fields.contains_key("mQty_Job"));
}

#[test]
fn parse_without_column_list_uses_create_table() {
    let sql = "\
CREATE TABLE `t_job` (
  `t_Job_ID` int(11) NOT NULL auto_increment,
  `mJob_No` varchar(255) default NULL,
  `mFinished_Date` varchar(255) default NULL,
  `mQty` decimal(19,2) default NULL,
  PRIMARY KEY  (`t_Job_ID`),
  UNIQUE KEY `mJob_No` (`mJob_No`)
) ENGINE=MyISAM DEFAULT CHARSET=gb2312;
INSERT INTO `t_job` VALUES (7,'No. 0022379','2026-09-20','12.50'),(8,'','2026-09-21','9.00');
";
    let (orders, skipped) = parse(sql);
    assert_eq!(orders.len(), 1, "空单号行应被跳过");
    assert_eq!(skipped, 1);
    assert_eq!(orders[0].order_no, "0022379", "应去掉 No. 前缀");
    assert_eq!(orders[0].meta.file_name, "0022379.json");
    assert_eq!(orders[0].fields.get("mQty").unwrap(), "12.50");
    assert_eq!(
        create_table_columns(sql, JOB_TABLE),
        vec!["t_Job_ID", "mJob_No", "mFinished_Date", "mQty"]
    );
}

#[test]
fn ignores_other_tables_and_stops_at_semicolon() {
    let sql = "\
INSERT INTO `t_job` (`mJob_No`, `mRemarks`) VALUES ('0001','a;b, c');
INSERT INTO `t_other` (`mJob_No`) VALUES ('xxxx');
LOCK TABLES `t_job` WRITE;
INSERT INTO `t_job` (`mJob_No`) VALUES ('0002');
";
    let (orders, _skipped) = parse(sql);
    assert_eq!(orders.len(), 2);
    assert_eq!(orders[0].order_no, "0001");
    assert_eq!(orders[0].fields.get("mRemarks").unwrap(), "a;b, c");
    assert_eq!(orders[1].order_no, "0002");
}

#[test]
fn duplicate_order_no_keeps_first() {
    let sql = "INSERT INTO `t_job` (`mJob_No`,`mUnit`) VALUES ('0001','个'),('0001','张');";
    let (orders, skipped) = parse(sql);
    assert_eq!(orders.len(), 1);
    assert_eq!(skipped, 1);
    assert_eq!(orders[0].fields.get("mUnit").unwrap(), "个");
}

#[test]
fn malformed_and_empty_input_are_safe() {
    let (orders, skipped) = parse("");
    assert!(orders.is_empty() && skipped == 0);

    let sql = "INSERT INTO `t_job` (`mJob_No`) VALUES ('0003')";
    let (orders, _) = parse(sql);
    assert_eq!(orders.len(), 1);
    assert_eq!(orders[0].order_no, "0003");

    let sql = "INSERT INTO `t_gd` VALUES (1,'x');";
    let (orders, skipped) = parse(sql);
    assert!(orders.is_empty() && skipped == 0);
}

#[test]
fn order_no_sanitized_for_file_name() {
    assert_eq!(clean_order_no(" No. 0022379 "), "0022379");
    assert_eq!(clean_order_no("0022379"), "0022379");
    assert_eq!(clean_order_no("A/B:C*D?E\"F<G>H|I"), "A_B_C_D_E_F_G_H_I");
    assert_eq!(clean_order_no("   "), "");
}

#[test]
fn string_unescape_handles_mysql_escapes() {
    let (s, end) = read_sql_string(b"a\\'b\\\\c\\nd\\te''f' tail", 0);
    assert_eq!(s, "a'b\\c\nd\te'f");
    assert_eq!(&"a\\'b\\\\c\\nd\\te''f' tail"[end..], " tail");
}
