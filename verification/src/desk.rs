//! What the desk's commands decide: new orders, saving, opening, copying,
//! the order list, printing and the import summary. Reading and writing
//! files, dialogs and the clock are left to the caller.

use vstd::prelude::*;
use vstd::string::{StrSliceExecFns, StringExecFns};
use crate::numfmt::{decimal, push_decimal};
use crate::order::{ImportResult, Order, OrderListItem, OrderMeta, OrderModel, PrintResult, SaveResult};
use crate::text::{
    strip_prefix_repeated, strip_suffix_repeated, trim_end_matches_str, trim_start_matches_str, trim_str,
    trim_white,
};

verus! {

/// `.json`.
pub open spec fn dot_json() -> Seq<char> {
    seq!['.', 'j', 's', 'o', 'n']
}

/// `s` ends with `.json`.
pub open spec fn ends_with_json(s: Seq<char>) -> bool {
    s.len() >= 5 && s.subrange(s.len() - 5, s.len() as int) == dot_json()
}

/// Whether `s` ends with `.json`.
pub fn has_json_ext(s: &str) -> (r: bool)
    ensures
        r == ends_with_json(s@),
{
    let n = s.unicode_len();
    if n < 5 {
        return false;
    }
    let r = s.get_char(n - 5) == '.' && s.get_char(n - 4) == 'j' && s.get_char(n - 3) == 's'
        && s.get_char(n - 2) == 'o' && s.get_char(n - 1) == 'n';
    proof {
        let t = s@.subrange(n - 5, n as int);
        if r {
            assert(t =~= dot_json());
        } else {
            assert(t != dot_json() || !r) by {
                if t == dot_json() {
                    assert(t[0] == s@[n - 5]);
                    assert(t[1] == s@[n - 4]);
                    assert(t[2] == s@[n - 3]);
                    assert(t[3] == s@[n - 2]);
                    assert(t[4] == s@[n - 1]);
                }
            }
        }
    }
    r
}

/// `name` is the name of a file with the extension `json`: it ends with
/// `.json` and something comes before (a name that is only `.json` has no
/// extension).
pub open spec fn is_json_file_name(name: Seq<char>) -> bool {
    ends_with_json(name) && name.len() > 5
}

/// Whether `name` is the name of a file with the extension `json`, as the
/// order list takes its files.
pub fn is_json_file(name: &str) -> (r: bool)
    ensures
        r == is_json_file_name(name@),
{
    has_json_ext(name) && name.unicode_len() > 5
}

/// `s` followed by `.json`.
fn with_json_ext(s: &str) -> (r: String)
    ensures
        r@ == s@ + dot_json(),
{
    let mut r = String::from_str(s);
    r.append(".json");
    proof {
        reveal_strlit(".json");
    }
    assert(".json"@ =~= dot_json());
    r
}

/// A fresh order numbered `no`, created `now`, with the contract number
/// `contract_no` in the contract fields.
pub fn order_new(no: &str, contract_no: &str, now: &str) -> (r: Order)
    ensures
        r.order_no@ == no@,
        r.meta.id@ == no@,
        r.meta.file_name@ == no@ + dot_json(),
        r.meta.created_at@ == now@,
        r.meta.updated_at@ == now@,
        r.fields@ == Map::<Seq<char>, Seq<char>>::empty().insert("contractNo"@, contract_no@).insert(
            "mSales_Confirmation_No"@,
            contract_no@,
        ),
        r.cks@ == Map::<Seq<char>, bool>::empty(),
{
    let mut order = Order::default();
    order.order_no = no.to_owned();
    order.meta.id = no.to_owned();
    order.meta.file_name = with_json_ext(no);
    order.meta.created_at = now.to_owned();
    order.meta.updated_at = now.to_owned();
    order.fields.insert("contractNo".to_owned(), contract_no.to_owned());
    order.fields.insert("mSales_Confirmation_No".to_owned(), contract_no.to_owned());
    order
}

/// The file an order is saved to: its own file name when that ends with
/// `.json`, else its id, else its order number, else `order`, with `.json`.
pub open spec fn save_file_name(o: OrderModel) -> Seq<char> {
    if ends_with_json(o.meta.file_name) {
        o.meta.file_name
    } else if o.meta.id.len() > 0 {
        o.meta.id + dot_json()
    } else if o.order_no.len() > 0 {
        o.order_no + dot_json()
    } else {
        "order"@ + dot_json()
    }
}

/// Prepares an order for saving at `now`: settles the file name and stamps
/// the update time. The caller writes the order to that file.
pub fn order_save(order: Order, now: &str) -> (r: SaveResult)
    ensures
        r.file_name@ == save_file_name(order@),
        r.order.meta.file_name@ == save_file_name(order@),
        r.order.meta.updated_at@ == now@,
        r.order.meta.id@ == order.meta.id@,
        r.order.meta.created_at@ == order.meta.created_at@,
        r.order.order_no@ == order.order_no@,
        r.order.fields@ == order.fields@,
        r.order.cks@ == order.cks@,
{
    let file_name = if has_json_ext(order.meta.file_name.as_str()) {
        order.meta.file_name.clone()
    } else if !order.meta.id.as_str().is_empty() {
        with_json_ext(order.meta.id.as_str())
    } else if !order.order_no.as_str().is_empty() {
        with_json_ext(order.order_no.as_str())
    } else {
        with_json_ext("order")
    };
    let mut full = order;
    full.meta.file_name = file_name.clone();
    full.meta.updated_at = now.to_owned();
    SaveResult { file_name, order: full }
}

/// An opened order, recorded under the name of the file it came from.
pub fn order_open(order: Order, file_name: String) -> (r: Order)
    ensures
        r.meta.file_name@ == file_name@,
        r.meta.id@ == order.meta.id@,
        r.meta.created_at@ == order.meta.created_at@,
        r.meta.updated_at@ == order.meta.updated_at@,
        r.order_no@ == order.order_no@,
        r.fields@ == order.fields@,
        r.cks@ == order.cks@,
{
    let mut r = order;
    r.meta.file_name = file_name;
    r
}

/// The file name offered when saving an order elsewhere: its order number,
/// else its id, with `.json`; `工单.json` when it has neither.
pub open spec fn suggested_name(o: OrderModel) -> Seq<char> {
    if o.order_no.len() > 0 {
        o.order_no + dot_json()
    } else if o.meta.id.len() > 0 {
        o.meta.id + dot_json()
    } else {
        "工单.json"@
    }
}

/// The file name offered when saving an order elsewhere.
pub fn suggested_file_name(order: &Order) -> (r: String)
    ensures
        r@ == suggested_name(order@),
{
    if !order.order_no.as_str().is_empty() {
        with_json_ext(order.order_no.as_str())
    } else if !order.meta.id.as_str().is_empty() {
        with_json_ext(order.meta.id.as_str())
    } else {
        "工单.json".to_owned()
    }
}

/// An order saved elsewhere, recorded under the name of the chosen file.
pub fn order_save_as(order: Order, file_name: String) -> (r: SaveResult)
    ensures
        r.file_name@ == file_name@,
        r.order.meta.file_name@ == file_name@,
        r.order.meta.id@ == order.meta.id@,
        r.order.meta.created_at@ == order.meta.created_at@,
        r.order.meta.updated_at@ == order.meta.updated_at@,
        r.order.order_no@ == order.order_no@,
        r.order.fields@ == order.fields@,
        r.order.cks@ == order.cks@,
{
    let mut full = order;
    full.meta.file_name = file_name.clone();
    SaveResult { file_name, order: full }
}

/// `No. ` and the order number, as the order number is displayed.
pub open spec fn displayed_no(no: Seq<char>) -> Seq<char> {
    "No. "@ + no
}

/// The fields of a copy of an order: all of the original's, with the order
/// number shown anew, a new contract number, today as the opening date and
/// no delivery date.
pub open spec fn duplicate_fields(
    fields: Map<Seq<char>, Seq<char>>,
    no: Seq<char>,
    contract_no: Seq<char>,
    today: Seq<char>,
) -> Map<Seq<char>, Seq<char>> {
    fields.insert("orderNoDisplay"@, displayed_no(no)).insert("mJob_No"@, displayed_no(no)).insert(
        "contractNo"@,
        contract_no,
    ).insert("mSales_Confirmation_No"@, contract_no).insert("mJob_Date"@, today).insert(
        "openDate"@,
        today,
    ).insert("mFinished_Date"@, Seq::<char>::empty()).insert("deliverDate"@, Seq::<char>::empty())
}

/// A copy of `order` under the new number `no` and contract number
/// `contract_no`, opened `today`, with no delivery date. Everything else is
/// copied: the fields, the check boxes and the meta data but for the id and
/// the file name (so the creation and update times are kept).
pub fn order_duplicate(order: &Order, no: &str, contract_no: &str, today: &str) -> (r: Order)
    ensures
        r.order_no@ == no@,
        r.meta.id@ == no@,
        r.meta.file_name@ == no@ + dot_json(),
        r.meta.created_at@ == order.meta.created_at@,
        r.meta.updated_at@ == order.meta.updated_at@,
        r.fields@ == duplicate_fields(order.fields@, no@, contract_no@, today@),
        r.cks@ == order.cks@,
{
    let mut new_order = Order {
        meta: OrderMeta {
            id: no.to_owned(),
            created_at: order.meta.created_at.clone(),
            updated_at: order.meta.updated_at.clone(),
            file_name: with_json_ext(no),
        },
        order_no: no.to_owned(),
        fields: order.fields.duplicate(),
        cks: order.cks.duplicate(),
    };
    let mut shown = "No. ".to_owned();
    shown.append(no);
    new_order.fields.insert("orderNoDisplay".to_owned(), shown.clone());
    new_order.fields.insert("mJob_No".to_owned(), shown);
    new_order.fields.insert("contractNo".to_owned(), contract_no.to_owned());
    new_order.fields.insert("mSales_Confirmation_No".to_owned(), contract_no.to_owned());
    new_order.fields.insert("mJob_Date".to_owned(), today.to_owned());
    new_order.fields.insert("openDate".to_owned(), today.to_owned());
    new_order.fields.insert("mFinished_Date".to_owned(), String::new());
    new_order.fields.insert("deliverDate".to_owned(), String::new());
    new_order
}

/// The answer to the print command: printing itself happens in the window.
pub fn order_print() -> (r: PrintResult)
    ensures
        r.ok,
        r.msg@ == "请在弹出的打印对话框中选择打印机"@,
{
    PrintResult { ok: true, msg: "请在弹出的打印对话框中选择打印机".to_owned() }
}

/// The message of an import that wrote `count` orders and skipped `skipped`
/// data rows.
pub open spec fn import_message(count: nat, skipped: nat) -> Seq<char> {
    if count == 0 {
        if skipped == 0 {
            "SQL 中未找到 t_job 工单数据"@
        } else {
            "未导入工单，跳过 "@ + decimal(skipped) + " 条无效数据行"@
        }
    } else if skipped == 0 {
        "已导入 "@ + decimal(count) + " 条工单"@
    } else {
        "已导入 "@ + decimal(count) + " 条工单，跳过 "@ + decimal(skipped) + " 条"@
    }
}

/// The summary of an import that wrote `count` orders, skipped
/// `skipped_rows` data rows while reading, and failed to write `failed`
/// orders (which count as skipped too).
pub fn import_result(count: usize, skipped_rows: usize, failed: usize) -> (r: ImportResult)
    requires
        skipped_rows + failed <= usize::MAX,
    ensures
        r.count == count,
        r.skipped == skipped_rows + failed,
        r.message@ == import_message(count as nat, r.skipped as nat),
{
    let skipped = skipped_rows + failed;
    let message = if count == 0 {
        if skipped == 0 {
            "SQL 中未找到 t_job 工单数据".to_owned()
        } else {
            let mut m = "未导入工单，跳过 ".to_owned();
            push_decimal(&mut m, skipped as u64);
            m.append(" 条无效数据行");
            m
        }
    } else if skipped == 0 {
        let mut m = "已导入 ".to_owned();
        push_decimal(&mut m, count as u64);
        m.append(" 条工单");
        m
    } else {
        let mut m = "已导入 ".to_owned();
        push_decimal(&mut m, count as u64);
        m.append(" 条工单，跳过 ");
        push_decimal(&mut m, skipped as u64);
        m.append(" 条");
        m
    };
    ImportResult { count, skipped, message }
}

/// The summary of an import the user called off: nothing written, nothing
/// skipped.
pub fn import_cancelled() -> (r: ImportResult)
    ensures
        r.count == 0,
        r.skipped == 0,
        r.message@ == "已取消导入"@,
{
    ImportResult { count: 0, skipped: 0, message: "已取消导入".to_owned() }
}

/// A line of the order list, as text.
pub struct ListItemModel {
    pub id: Seq<char>,
    pub file_name: Seq<char>,
    pub order_no: Seq<char>,
    pub product_name: Seq<char>,
    pub updated_at: Seq<char>,
}

impl View for OrderListItem {
    type V = ListItemModel;

    open spec fn view(&self) -> ListItemModel {
        ListItemModel {
            id: self.id@,
            file_name: self.file_name@,
            order_no: self.order_no@,
            product_name: self.product_name@,
            updated_at: self.updated_at@,
        }
    }
}

/// The order number the list shows: the displayed number without its `No. `
/// prefix, else the `orderNo` field, else the order's own number.
pub open spec fn list_order_no(o: OrderModel) -> Seq<char> {
    let shown = if o.fields.contains_key("orderNoDisplay"@) {
        trim_white(strip_prefix_repeated(o.fields["orderNoDisplay"@], "No. "@))
    } else {
        Seq::<char>::empty()
    };
    if shown.len() > 0 {
        shown
    } else if o.fields.contains_key("orderNo"@) && o.fields["orderNo"@].len() > 0 {
        o.fields["orderNo"@]
    } else {
        o.order_no
    }
}

/// The name the list shows: the customer, else the product specification.
pub open spec fn list_product_name(o: OrderModel) -> Seq<char> {
    if o.fields.contains_key("customer"@) && o.fields["customer"@].len() > 0 {
        o.fields["customer"@]
    } else if o.fields.contains_key("productSpec"@) {
        o.fields["productSpec"@]
    } else {
        Seq::<char>::empty()
    }
}

/// The list line of the order read from the file `file_name`.
pub fn list_item(file_name: String, order: &Order) -> (r: OrderListItem)
    ensures
        r.id@ == order.meta.id@,
        r.file_name@ == file_name@,
        r.order_no@ == list_order_no(order@),
        r.product_name@ == list_product_name(order@),
        r.updated_at@ == order.meta.updated_at@,
{
    let shown: String = match order.fields.get("orderNoDisplay") {
        Some(v) => trim_str(trim_start_matches_str(v.as_str(), "No. ")).to_owned(),
        None => String::new(),
    };
    let order_no = if !shown.as_str().is_empty() {
        shown
    } else {
        match order.fields.get("orderNo") {
            Some(v) => if !v.as_str().is_empty() {
                v.clone()
            } else {
                order.order_no.clone()
            },
            None => order.order_no.clone(),
        }
    };
    let product_name = match order.fields.get("customer") {
        Some(v) => if !v.as_str().is_empty() {
            v.clone()
        } else {
            match order.fields.get("productSpec") {
                Some(p) => p.clone(),
                None => String::new(),
            }
        },
        None => match order.fields.get("productSpec") {
            Some(p) => p.clone(),
            None => String::new(),
        },
    };
    OrderListItem {
        id: order.meta.id.clone(),
        file_name,
        order_no,
        product_name,
        updated_at: order.meta.updated_at.clone(),
    }
}

/// The list line of a file that could not be read as an order: its name
/// without `.json` as the id, everything else empty.
pub fn list_item_unreadable(file_name: String) -> (r: OrderListItem)
    ensures
        r.id@ == strip_suffix_repeated(file_name@, dot_json()),
        r.file_name@ == file_name@,
        r.order_no@ == Seq::<char>::empty(),
        r.product_name@ == Seq::<char>::empty(),
        r.updated_at@ == Seq::<char>::empty(),
{
    proof {
        reveal_strlit(".json");
    }
    assert(".json"@ =~= dot_json());
    let id = trim_end_matches_str(file_name.as_str(), ".json").to_owned();
    OrderListItem {
        id,
        file_name,
        order_no: String::new(),
        product_name: String::new(),
        updated_at: String::new(),
    }
}

/// `a` comes before `b` in the order of their characters' code points,
/// comparing from position `i` on (a proper prefix comes first).
pub open spec fn text_lt_from(a: Seq<char>, b: Seq<char>, i: int) -> bool
    decreases a.len() - i,
{
    if i < 0 || i >= a.len() {
        0 <= i < b.len()
    } else if i >= b.len() {
        false
    } else if a[i] != b[i] {
        (a[i] as u32) < (b[i] as u32)
    } else {
        text_lt_from(a, b, i + 1)
    }
}

/// `a` comes before `b` in lexicographic order of code points (which is the
/// byte order of their UTF-8 encodings).
pub open spec fn text_lt(a: Seq<char>, b: Seq<char>) -> bool {
    text_lt_from(a, b, 0)
}

/// Whether `a` comes before `b` in lexicographic order of code points.
pub fn text_less(a: &str, b: &str) -> (r: bool)
    ensures
        r == text_lt(a@, b@),
{
    let na = a.unicode_len();
    let nb = b.unicode_len();
    let mut i: usize = 0;
    while i < na && i < nb && a.get_char(i) == b.get_char(i)
        invariant
            na == a@.len(),
            nb == b@.len(),
            i <= na,
            i <= nb,
            text_lt_from(a@, b@, i as int) == text_lt(a@, b@),
        decreases na - i,
    {
        i = i + 1;
    }
    if i >= na {
        i < nb
    } else if i >= nb {
        false
    } else {
        (a.get_char(i) as u32) < (b.get_char(i) as u32)
    }
}

/// `x` placed into a list kept latest-first: before the first line updated
/// earlier than `x`, after all others (so equal lines keep their order).
pub open spec fn insert_latest_first(sorted: Seq<ListItemModel>, x: ListItemModel) -> Seq<
    ListItemModel,
>
    decreases sorted.len(),
{
    if sorted.len() == 0 {
        seq![x]
    } else if text_lt(sorted[0].updated_at, x.updated_at) {
        seq![x] + sorted
    } else {
        seq![sorted[0]] + insert_latest_first(sorted.drop_first(), x)
    }
}

/// The list lines ordered latest update first; lines updated at the same
/// time keep their order.
pub open spec fn latest_first(items: Seq<ListItemModel>) -> Seq<ListItemModel>
    decreases items.len(),
{
    if items.len() == 0 {
        seq![]
    } else {
        insert_latest_first(latest_first(items.drop_last()), items.last())
    }
}

/// Placing `x` at the first line updated earlier than it.
pub proof fn lemma_insert_latest_first(sorted: Seq<ListItemModel>, x: ListItemModel, p: int)
    requires
        0 <= p <= sorted.len(),
        forall|j: int| 0 <= j < p ==> !text_lt(#[trigger] sorted[j].updated_at, x.updated_at),
        p < sorted.len() ==> text_lt(sorted[p].updated_at, x.updated_at),
    ensures
        insert_latest_first(sorted, x) == sorted.take(p) + seq![x] + sorted.skip(p),
    decreases sorted.len(),
{
    if sorted.len() == 0 {
        assert(sorted.take(p) + seq![x] + sorted.skip(p) =~= seq![x]);
    } else if p == 0 {
        assert(sorted.take(p) + seq![x] + sorted.skip(p) =~= seq![x] + sorted);
    } else {
        let t = sorted.drop_first();
        assert forall|j: int| 0 <= j < p - 1 implies !text_lt(#[trigger] t[j].updated_at, x.updated_at) by {
            assert(t[j] == sorted[j + 1]);
        }
        lemma_insert_latest_first(t, x, p - 1);
        assert(sorted.take(p) + seq![x] + sorted.skip(p) =~= seq![sorted[0]] + (t.take(p - 1) + seq![x]
            + t.skip(p - 1)));
    }
}

/// List lines as models.
pub open spec fn items_model(v: Seq<OrderListItem>) -> Seq<ListItemModel> {
    v.map_values(|i: OrderListItem| i@)
}

/// Orders the list lines latest update first (a stable sort: lines updated
/// at the same time keep their order).
pub fn sort_latest_first(items: Vec<OrderListItem>) -> (r: Vec<OrderListItem>)
    ensures
        items_model(r@) == latest_first(items_model(items@)),
{
    let ghost all = items_model(items@);
    let mut rest = items;
    let mut sorted: Vec<OrderListItem> = Vec::new();
    let ghost mut done: int = 0;
    assert(all.take(0) =~= Seq::<ListItemModel>::empty());
    while rest.len() > 0
        invariant
            0 <= done <= all.len(),
            items_model(rest@) == all.skip(done),
            items_model(sorted@) == latest_first(all.take(done)),
        decreases rest@.len(),
    {
        let ghost old_rest = rest@;
        assert(items_model(old_rest).len() == old_rest.len());
        assert(done < all.len());
        let x = rest.remove(0);
        proof {
            assert(items_model(old_rest)[0] == all.skip(done)[0]);
            assert(all.skip(done)[0] == x@);
            assert forall|j: int| 0 <= j < rest@.len() implies items_model(rest@)[j] == all.skip(done + 1)[j] by {
                assert(rest@[j] == old_rest[j + 1]);
                assert(items_model(old_rest)[j + 1] == all.skip(done)[j + 1]);
            }
            assert(items_model(rest@) =~= all.skip(done + 1));
        }
        let mut p: usize = 0;
        while p < sorted.len() && !text_less(sorted[p].updated_at.as_str(), x.updated_at.as_str())
            invariant
                p <= sorted@.len(),
                forall|j: int| 0 <= j < p ==> !text_lt(#[trigger] items_model(sorted@)[j].updated_at, x@.updated_at),
            decreases sorted@.len() - p,
        {
            p = p + 1;
        }
        let ghost before = items_model(sorted@);
        proof {
            lemma_insert_latest_first(before, x@, p as int);
            assert(all.take(done + 1).drop_last() =~= all.take(done));
            assert(all.take(done + 1).last() == x@);
        }
        sorted.insert(p, x);
        proof {
            assert(items_model(sorted@) =~= before.take(p as int) + seq![x@] + before.skip(p as int));
            done = done + 1;
        }
    }
    proof {
        assert(all.take(done) =~= all);
    }
    sorted
}

/// No line was updated later than one above it.
pub open spec fn is_latest_first(s: Seq<ListItemModel>) -> bool {
    forall|i: int, j: int|
        0 <= i < j < s.len() ==> !text_lt(#[trigger] s[i].updated_at, #[trigger] s[j].updated_at)
}

/// No text comes before itself.
pub proof fn lemma_text_lt_irreflexive(a: Seq<char>, i: int)
    requires
        0 <= i,
    ensures
        !text_lt_from(a, a, i),
    decreases a.len() - i,
{
    if i < a.len() {
        lemma_text_lt_irreflexive(a, i + 1);
    }
}

/// The order of texts is transitive.
pub proof fn lemma_text_lt_transitive(a: Seq<char>, b: Seq<char>, c: Seq<char>, i: int)
    requires
        0 <= i,
        text_lt_from(a, b, i),
        text_lt_from(b, c, i),
    ensures
        text_lt_from(a, c, i),
    decreases a.len() - i,
{
    if i < a.len() && i < b.len() && i < c.len() && a[i] == b[i] && b[i] == c[i] {
        lemma_text_lt_transitive(a, b, c, i + 1);
    }
}

/// Placing a line into a list kept latest first keeps it latest first, and
/// adds just that line.
pub proof fn lemma_insert_latest_first_sorted(sorted: Seq<ListItemModel>, x: ListItemModel)
    requires
        is_latest_first(sorted),
    ensures
        is_latest_first(insert_latest_first(sorted, x)),
        insert_latest_first(sorted, x).to_multiset() == sorted.to_multiset().insert(x),
{
    let p = first_earlier(sorted, x, 0);
    lemma_first_earlier(sorted, x, 0);
    lemma_insert_latest_first(sorted, x, p);
    let r = insert_latest_first(sorted, x);
    assert(r =~= sorted.insert(p, x));
    vstd::seq_lib::to_multiset_insert(sorted, p, x);
    assert forall|i: int, j: int| 0 <= i < j < r.len() implies !text_lt(
        #[trigger] r[i].updated_at,
        #[trigger] r[j].updated_at,
    ) by {
        if j < p {
            assert(r[i] == sorted[i] && r[j] == sorted[j]);
        } else if j == p {
            assert(r[i] == sorted[i]);
            assert(r[j] == x);
        } else if i < p {
            assert(r[i] == sorted[i] && r[j] == sorted[j - 1]);
        } else if i == p {
            assert(r[i] == x && r[j] == sorted[j - 1]);
            assert(text_lt(sorted[p].updated_at, x.updated_at));
            if text_lt(x.updated_at, sorted[j - 1].updated_at) {
                lemma_text_lt_transitive(sorted[p].updated_at, x.updated_at, sorted[j - 1].updated_at, 0);
                if j - 1 == p {
                    lemma_text_lt_irreflexive(sorted[p].updated_at, 0);
                }
            }
        } else {
            assert(r[i] == sorted[i - 1] && r[j] == sorted[j - 1]);
        }
    }
}

/// The first position at or after `k` of a line updated earlier than `x`.
pub open spec fn first_earlier(sorted: Seq<ListItemModel>, x: ListItemModel, k: int) -> int
    decreases sorted.len() - k,
{
    if k < 0 || k >= sorted.len() {
        sorted.len() as int
    } else if text_lt(sorted[k].updated_at, x.updated_at) {
        k
    } else {
        first_earlier(sorted, x, k + 1)
    }
}

/// What the first earlier line's position means.
proof fn lemma_first_earlier(sorted: Seq<ListItemModel>, x: ListItemModel, k: int)
    requires
        0 <= k <= sorted.len(),
        forall|j: int| 0 <= j < k ==> !text_lt(#[trigger] sorted[j].updated_at, x.updated_at),
    ensures
        k <= first_earlier(sorted, x, k) <= sorted.len(),
        forall|j: int|
            0 <= j < first_earlier(sorted, x, k) ==> !text_lt(#[trigger] sorted[j].updated_at, x.updated_at),
        first_earlier(sorted, x, k) < sorted.len() ==> text_lt(
            sorted[first_earlier(sorted, x, k)].updated_at,
            x.updated_at,
        ),
    decreases sorted.len() - k,
{
    if k < sorted.len() && !text_lt(sorted[k].updated_at, x.updated_at) {
        lemma_first_earlier(sorted, x, k + 1);
    }
}

/// The order list is shown latest update first, and it holds exactly the
/// lines it was given.
pub proof fn lemma_latest_first(items: Seq<ListItemModel>)
    ensures
        is_latest_first(latest_first(items)),
        latest_first(items).to_multiset() == items.to_multiset(),
    decreases items.len(),
{
    if items.len() == 0 {
        assert(latest_first(items) =~= items);
    } else {
        let t = items.drop_last();
        lemma_latest_first(t);
        lemma_insert_latest_first_sorted(latest_first(t), items.last());
        vstd::seq_lib::to_multiset_build(t, items.last());
        assert(t.push(items.last()) =~= items);
    }
}

/// `a` and `b` agree on their first `k` characters.
pub open spec fn agree_before(a: Seq<char>, b: Seq<char>, k: int) -> bool {
    forall|q: int| 0 <= q < k ==> #[trigger] a[q] == #[trigger] b[q]
}

/// The lexicographic order of texts, by code point: at the first position
/// where `a` and `b` differ `a`'s character is smaller, or `a` is a proper
/// prefix of `b`.
pub open spec fn lexicographically_before(a: Seq<char>, b: Seq<char>) -> bool {
    ||| exists|k: int|
        0 <= k < a.len() && k < b.len() && agree_before(a, b, k) && (#[trigger] a[k] as u32) < (
        b[k] as u32)
    ||| a.len() < b.len() && agree_before(a, b, a.len() as int)
}

proof fn lemma_text_lt_from_lexicographic(a: Seq<char>, b: Seq<char>, i: int)
    requires
        0 <= i <= a.len(),
        i <= b.len(),
        agree_before(a, b, i),
    ensures
        text_lt_from(a, b, i) == lexicographically_before(a, b),
    decreases a.len() - i,
{
    if i >= a.len() {
        if exists|k: int|
            0 <= k < a.len() && k < b.len() && agree_before(a, b, k) && (#[trigger] a[k] as u32) < (
            b[k] as u32) {
            let k = choose|k: int|
                0 <= k < a.len() && k < b.len() && agree_before(a, b, k) && (#[trigger] a[k] as u32)
                    < (b[k] as u32);
            assert(a[k] == b[k]);
        }
    } else if i >= b.len() {
        if exists|k: int|
            0 <= k < a.len() && k < b.len() && agree_before(a, b, k) && (#[trigger] a[k] as u32) < (
            b[k] as u32) {
            let k = choose|k: int|
                0 <= k < a.len() && k < b.len() && agree_before(a, b, k) && (#[trigger] a[k] as u32)
                    < (b[k] as u32);
            assert(a[k] == b[k]);
        }
    } else if a[i] != b[i] {
        if (a[i] as u32) < (b[i] as u32) {
            assert(0 <= i < a.len() && i < b.len() && agree_before(a, b, i) && (a[i] as u32) < (
            b[i] as u32));
        } else {
            if exists|k: int|
                0 <= k < a.len() && k < b.len() && agree_before(a, b, k) && (#[trigger] a[k] as u32)
                    < (b[k] as u32) {
                let k = choose|k: int|
                    0 <= k < a.len() && k < b.len() && agree_before(a, b, k) && (
                    #[trigger] a[k] as u32) < (b[k] as u32);
                if k > i {
                    assert(a[i] == b[i]);
                } else if k < i {
                    assert(a[k] == b[k]);
                }
            }
            if a.len() < b.len() && agree_before(a, b, a.len() as int) {
                assert(a[i] == b[i]);
            }
        }
    } else {
        lemma_text_lt_from_lexicographic(a, b, i + 1);
    }
}

/// Update times are ordered by the full lexicographic order of their texts:
/// `a` comes before `b` exactly when, at the first position where they
/// differ, `a`'s character is smaller, or `a` is a proper prefix of `b`.
pub proof fn lemma_text_lt_is_lexicographic(a: Seq<char>, b: Seq<char>)
    ensures
        text_lt(a, b) == lexicographically_before(a, b),
{
    lemma_text_lt_from_lexicographic(a, b, 0);
}

/// A copy shows its own numbers whatever the source held: the displayed
/// order number (under both keys) is `No. ` and the new number, the contract
/// number (under both keys) is the new one, the opening date (under both
/// keys) is `today` and the delivery date (under both keys) is empty; every
/// other field is the source's.
pub proof fn lemma_duplicate_fields(
    fields: Map<Seq<char>, Seq<char>>,
    no: Seq<char>,
    contract_no: Seq<char>,
    today: Seq<char>,
)
    ensures
        duplicate_fields(fields, no, contract_no, today).contains_key("orderNoDisplay"@),
        duplicate_fields(fields, no, contract_no, today)["orderNoDisplay"@] == "No. "@ + no,
        duplicate_fields(fields, no, contract_no, today).contains_key("mJob_No"@),
        duplicate_fields(fields, no, contract_no, today)["mJob_No"@] == "No. "@ + no,
        duplicate_fields(fields, no, contract_no, today).contains_key("contractNo"@),
        duplicate_fields(fields, no, contract_no, today)["contractNo"@] == contract_no,
        duplicate_fields(fields, no, contract_no, today).contains_key("mSales_Confirmation_No"@),
        duplicate_fields(fields, no, contract_no, today)["mSales_Confirmation_No"@] == contract_no,
        duplicate_fields(fields, no, contract_no, today).contains_key("mJob_Date"@),
        duplicate_fields(fields, no, contract_no, today)["mJob_Date"@] == today,
        duplicate_fields(fields, no, contract_no, today).contains_key("openDate"@),
        duplicate_fields(fields, no, contract_no, today)["openDate"@] == today,
        duplicate_fields(fields, no, contract_no, today).contains_key("mFinished_Date"@),
        duplicate_fields(fields, no, contract_no, today)["mFinished_Date"@].len() == 0,
        duplicate_fields(fields, no, contract_no, today).contains_key("deliverDate"@),
        duplicate_fields(fields, no, contract_no, today)["deliverDate"@].len() == 0,
        forall|k: Seq<char>|
            k != "orderNoDisplay"@ && k != "mJob_No"@ && k != "contractNo"@ && k
                != "mSales_Confirmation_No"@ && k != "mJob_Date"@ && k != "openDate"@ && k
                != "mFinished_Date"@ && k != "deliverDate"@ ==> (#[trigger] duplicate_fields(
                fields,
                no,
                contract_no,
                today,
            ).contains_key(k) == fields.contains_key(k) && (fields.contains_key(k)
                ==> duplicate_fields(fields, no, contract_no, today)[k] == fields[k])),
{
    reveal_strlit("orderNoDisplay");
    reveal_strlit("mJob_No");
    reveal_strlit("contractNo");
    reveal_strlit("mSales_Confirmation_No");
    reveal_strlit("mJob_Date");
    reveal_strlit("openDate");
    reveal_strlit("mFinished_Date");
    reveal_strlit("deliverDate");
    assert("orderNoDisplay"@ != "mJob_No"@) by {
        assert("orderNoDisplay"@.len() != "mJob_No"@.len());
    }
    assert("orderNoDisplay"@[0] != "contractNo"@[0]);
    assert("orderNoDisplay"@[0] != "mSales_Confirmation_No"@[0]);
    assert("orderNoDisplay"@[0] != "mJob_Date"@[0]);
    assert("orderNoDisplay"@[1] != "openDate"@[1]);
    assert("orderNoDisplay"@[0] != "mFinished_Date"@[0]);
    assert("orderNoDisplay"@[0] != "deliverDate"@[0]);
    assert("mJob_No"@[0] != "contractNo"@[0]);
    assert("mJob_No"@.len() != "mSales_Confirmation_No"@.len());
    assert("mJob_No"@.len() != "mJob_Date"@.len());
    assert("mJob_No"@[0] != "openDate"@[0]);
    assert("mJob_No"@[1] != "mFinished_Date"@[1]);
    assert("mJob_No"@[0] != "deliverDate"@[0]);
    assert("contractNo"@[0] != "mSales_Confirmation_No"@[0]);
    assert("contractNo"@[0] != "mJob_Date"@[0]);
    assert("contractNo"@[0] != "openDate"@[0]);
    assert("contractNo"@[0] != "mFinished_Date"@[0]);
    assert("contractNo"@[0] != "deliverDate"@[0]);
    assert("mSales_Confirmation_No"@[1] != "mJob_Date"@[1]);
    assert("mSales_Confirmation_No"@[0] != "openDate"@[0]);
    assert("mSales_Confirmation_No"@[1] != "mFinished_Date"@[1]);
    assert("mSales_Confirmation_No"@[0] != "deliverDate"@[0]);
    assert("mJob_Date"@[0] != "openDate"@[0]);
    assert("mJob_Date"@[1] != "mFinished_Date"@[1]);
    assert("mJob_Date"@[0] != "deliverDate"@[0]);
    assert("openDate"@[0] != "mFinished_Date"@[0]);
    assert("openDate"@[0] != "deliverDate"@[0]);
    assert("mFinished_Date"@[0] != "deliverDate"@[0]);
}

/// The name a list line shows: the customer when the order has a non-empty
/// one, whatever else it holds; else the product specification when it has
/// one; else nothing.
pub proof fn lemma_list_name_prefers_customer(o: OrderModel)
    ensures
        o.fields.contains_key("customer"@) && o.fields["customer"@].len() > 0 ==> list_product_name(o)
            == o.fields["customer"@],
        !(o.fields.contains_key("customer"@) && o.fields["customer"@].len() > 0)
            && o.fields.contains_key("productSpec"@) ==> list_product_name(o) == o.fields["productSpec"@],
        !(o.fields.contains_key("customer"@) && o.fields["customer"@].len() > 0)
            && !o.fields.contains_key("productSpec"@) ==> list_product_name(o).len() == 0,
{
}

/// `s` ends with `.json`, spelled out.
pub open spec fn ends_with_dot_json(s: Seq<char>) -> bool {
    s.len() >= 5 && s[s.len() - 5] == '.' && s[s.len() - 4] == 'j' && s[s.len() - 3] == 's'
        && s[s.len() - 2] == 'o' && s[s.len() - 1] == 'n'
}

/// Saving keeps an order's file name when it ends with `.json`; otherwise
/// the order is saved as its id, else its order number, else `order`,
/// followed by `.json`. The name saved to always ends with `.json`.
pub proof fn lemma_save_file_name(o: OrderModel)
    ensures
        ends_with_dot_json(save_file_name(o)),
        ends_with_dot_json(o.meta.file_name) ==> save_file_name(o) == o.meta.file_name,
        !ends_with_dot_json(o.meta.file_name) && o.meta.id.len() > 0 ==> save_file_name(o)
            == o.meta.id + ".json"@,
        !ends_with_dot_json(o.meta.file_name) && o.meta.id.len() == 0 && o.order_no.len() > 0
            ==> save_file_name(o) == o.order_no + ".json"@,
        !ends_with_dot_json(o.meta.file_name) && o.meta.id.len() == 0 && o.order_no.len() == 0
            ==> save_file_name(o) == "order.json"@,
{
    reveal_strlit(".json");
    reveal_strlit("order");
    reveal_strlit("order.json");
    let f = o.meta.file_name;
    if f.len() >= 5 {
        let t = f.subrange(f.len() - 5, f.len() as int);
        assert(t[0] == f[f.len() - 5] && t[1] == f[f.len() - 4] && t[2] == f[f.len() - 3] && t[3]
            == f[f.len() - 2] && t[4] == f[f.len() - 1]);
        if ends_with_dot_json(f) {
            assert(t =~= dot_json());
        }
    }
    assert(".json"@ =~= dot_json());
    assert("order"@ + dot_json() =~= "order.json"@);
    let r = save_file_name(o);
    if !ends_with_json(f) {
        let base = r.subrange(0, r.len() - 5);
        assert(r =~= base + dot_json());
        assert(r[r.len() - 5] == dot_json()[0]);
        assert(r[r.len() - 4] == dot_json()[1]);
        assert(r[r.len() - 3] == dot_json()[2]);
        assert(r[r.len() - 2] == dot_json()[3]);
        assert(r[r.len() - 1] == dot_json()[4]);
    } else {
        let t = f.subrange(f.len() - 5, f.len() as int);
        assert(t[0] == f[f.len() - 5] && t[1] == f[f.len() - 4] && t[2] == f[f.len() - 3] && t[3]
            == f[f.len() - 2] && t[4] == f[f.len() - 1]);
    }
}

/// The name offered for saving elsewhere: the order number, else the id,
/// followed by `.json`; `工单.json` when the order has neither.
pub proof fn lemma_suggested_name(o: OrderModel)
    ensures
        o.order_no.len() > 0 ==> suggested_name(o) == o.order_no + ".json"@,
        o.order_no.len() == 0 && o.meta.id.len() > 0 ==> suggested_name(o) == o.meta.id + ".json"@,
        o.order_no.len() == 0 && o.meta.id.len() == 0 ==> suggested_name(o) == "工单.json"@,
{
    reveal_strlit(".json");
    assert(".json"@ =~= dot_json());
}

/// A list line shows the number an order displays without its `No. `: for
/// a displayed `No. ` followed by a number with no white space at its ends
/// (and no second `No. `), the number itself.
pub proof fn lemma_list_shows_displayed_number(o: OrderModel, x: Seq<char>)
    requires
        o.fields.contains_key("orderNoDisplay"@),
        o.fields["orderNoDisplay"@] == "No. "@ + x,
        x.len() > 0,
        trim_white(x) == x,
        !(x.len() >= 4 && x.take(4) == "No. "@),
    ensures
        list_order_no(o) == x,
{
    reveal_strlit("No. ");
    let d = "No. "@ + x;
    assert(d.subrange(0, 4) =~= "No. "@);
    assert(d.skip(4) =~= x);
    if x.len() >= 4 {
        assert(x.subrange(0, 4) == x.take(4));
    }
    assert(strip_prefix_repeated(x, "No. "@) == x);
    assert(strip_prefix_repeated(d, "No. "@) == x);
}

/// Without a displayed number, a list line shows the `orderNo` field when
/// it is filled in, else the order's own number.
pub proof fn lemma_list_number_fallbacks(o: OrderModel)
    ensures
        !o.fields.contains_key("orderNoDisplay"@) && o.fields.contains_key("orderNo"@)
            && o.fields["orderNo"@].len() > 0 ==> list_order_no(o) == o.fields["orderNo"@],
        !o.fields.contains_key("orderNoDisplay"@) && !(o.fields.contains_key("orderNo"@)
            && o.fields["orderNo"@].len() > 0) ==> list_order_no(o) == o.order_no,
{
}

/// The order list takes a file when its name ends with `.json` and has
/// something before it (`.json` alone names no extension).
pub proof fn lemma_json_file_names(name: Seq<char>)
    ensures
        is_json_file_name(name) <==> ends_with_dot_json(name) && name.len() > 5,
{
    if name.len() >= 5 {
        let t = name.subrange(name.len() - 5, name.len() as int);
        assert(t[0] == name[name.len() - 5] && t[1] == name[name.len() - 4] && t[2] == name[name.len()
            - 3] && t[3] == name[name.len() - 2] && t[4] == name[name.len() - 1]);
        if ends_with_dot_json(name) {
            assert(t =~= dot_json());
        }
    }
}

/// The import summary names what happened: no orders and nothing skipped
/// means no job data was found; otherwise it gives the number of orders
/// imported and of rows skipped, in decimal.
pub proof fn lemma_import_message(count: nat, skipped: nat)
    ensures
        count == 0 && skipped == 0 ==> import_message(count, skipped) == "SQL 中未找到 t_job 工单数据"@,
        count == 0 && skipped > 0 ==> import_message(count, skipped) == "未导入工单，跳过 "@ + decimal(
            skipped,
        ) + " 条无效数据行"@,
        count > 0 && skipped == 0 ==> import_message(count, skipped) == "已导入 "@ + decimal(count)
            + " 条工单"@,
        count > 0 && skipped > 0 ==> import_message(count, skipped) == "已导入 "@ + decimal(count)
            + " 条工单，跳过 "@ + decimal(skipped) + " 条"@,
{
}

} // verus!
