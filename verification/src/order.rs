//! Work orders: the records the desk keeps, and how an order number is made
//! safe to use as a file name.

use vstd::prelude::*;
use vstd::string::StrSliceExecFns;
use crate::strmap::StrMap;
use crate::text::{drop_leading, drop_trailing, is_white_space, lemma_trim_white, push_char, trim_str, trim_white};

verus! {

/// Bookkeeping of an order: its id, when it was created and last updated,
/// and the file it is stored in.
#[derive(Debug)]
pub struct OrderMeta {
    pub id: String,
    pub created_at: String,
    pub updated_at: String,
    pub file_name: String,
}

/// A work order: its bookkeeping, its order number, the free-form fields of
/// the form (by field name) and the state of its check boxes.
#[derive(Debug)]
pub struct Order {
    pub meta: OrderMeta,
    pub order_no: String,
    pub fields: StrMap<String>,
    pub cks: StrMap<bool>,
}

/// One line of the order list.
#[derive(Debug)]
pub struct OrderListItem {
    pub id: String,
    pub file_name: String,
    pub order_no: String,
    pub product_name: String,
    pub updated_at: String,
}

/// What saving an order answers: the file it went to and the order as saved.
#[derive(Debug)]
pub struct SaveResult {
    pub file_name: String,
    pub order: Order,
}

/// What the print command answers.
#[derive(Debug)]
pub struct PrintResult {
    pub ok: bool,
    pub msg: String,
}

/// What an import answers: orders written, data rows skipped, and a message.
#[derive(Debug)]
pub struct ImportResult {
    pub count: usize,
    pub skipped: usize,
    pub message: String,
}

/// The bookkeeping of an order, as text.
pub struct MetaModel {
    pub id: Seq<char>,
    pub created_at: Seq<char>,
    pub updated_at: Seq<char>,
    pub file_name: Seq<char>,
}

/// An order, as text and maps.
pub struct OrderModel {
    pub meta: MetaModel,
    pub order_no: Seq<char>,
    pub fields: Map<Seq<char>, Seq<char>>,
    pub cks: Map<Seq<char>, bool>,
}

impl View for OrderMeta {
    type V = MetaModel;

    open spec fn view(&self) -> MetaModel {
        MetaModel {
            id: self.id@,
            created_at: self.created_at@,
            updated_at: self.updated_at@,
            file_name: self.file_name@,
        }
    }
}

impl View for Order {
    type V = OrderModel;

    open spec fn view(&self) -> OrderModel {
        OrderModel {
            meta: self.meta@,
            order_no: self.order_no@,
            fields: self.fields@,
            cks: self.cks@,
        }
    }
}

impl Default for OrderMeta {
    fn default() -> (r: Self)
        ensures
            r.id@ == Seq::<char>::empty(),
            r.created_at@ == Seq::<char>::empty(),
            r.updated_at@ == Seq::<char>::empty(),
            r.file_name@ == Seq::<char>::empty(),
    {
        OrderMeta {
            id: String::new(),
            created_at: String::new(),
            updated_at: String::new(),
            file_name: String::new(),
        }
    }
}

impl Default for Order {
    fn default() -> (r: Self)
        ensures
            r.meta.id@ == Seq::<char>::empty(),
            r.meta.created_at@ == Seq::<char>::empty(),
            r.meta.updated_at@ == Seq::<char>::empty(),
            r.meta.file_name@ == Seq::<char>::empty(),
            r.order_no@ == Seq::<char>::empty(),
            r.fields@ == Map::<Seq<char>, Seq<char>>::empty(),
            r.cks@ == Map::<Seq<char>, bool>::empty(),
    {
        Order {
            meta: OrderMeta::default(),
            order_no: String::new(),
            fields: StrMap::new(),
            cks: StrMap::new(),
        }
    }
}

/// A character that file names may not hold: `\ / : * ? " < > |`.
pub open spec fn is_forbidden_char(c: char) -> bool {
    c == '\\' || c == '/' || c == ':' || c == '*' || c == '?' || c == '"' || c == '<' || c == '>'
        || c == '|'
}

/// `s` begins with `No.` (any case of `N` and `o`).
pub open spec fn has_no_prefix(s: Seq<char>) -> bool {
    &&& s.len() >= 3
    &&& (s[0] == 'n' || s[0] == 'N')
    &&& (s[1] == 'o' || s[1] == 'O')
    &&& s[2] == '.'
}

/// The longest order number kept, in characters.
pub open spec fn max_order_no_chars() -> int {
    120
}

/// An order number made fit for a file name: trimmed, without a leading
/// `No.`, with every forbidden character turned into `_`, trimmed again, and
/// cut to at most 120 characters.
pub open spec fn order_no_text(raw: Seq<char>) -> Seq<char> {
    let s = trim_white(raw);
    let s = if has_no_prefix(s) {
        trim_white(s.skip(3))
    } else {
        s
    };
    let m = s.map_values(|c: char| if is_forbidden_char(c) { '_' } else { c });
    let t = trim_white(m);
    if t.len() > max_order_no_chars() {
        t.take(max_order_no_chars())
    } else {
        t
    }
}

/// Normalises an order number: trims it, drops a `No.` prefix, replaces the
/// characters that file names may not hold, and keeps at most 120 characters.
pub fn clean_order_no(raw: &str) -> (r: String)
    ensures
        r@ == order_no_text(raw@),
{
    let s = trim_str(raw);
    let n = s.unicode_len();
    let prefixed = n >= 3 && {
        let c0 = s.get_char(0);
        let c1 = s.get_char(1);
        let c2 = s.get_char(2);
        (c0 == 'n' || c0 == 'N') && (c1 == 'o' || c1 == 'O') && c2 == '.'
    };
    let s2: &str = if prefixed {
        trim_str(s.substring_char(3, n))
    } else {
        s
    };
    let n2 = s2.unicode_len();
    let mut m = String::new();
    let mut i: usize = 0;
    while i < n2
        invariant
            n2 == s2@.len(),
            i <= n2,
            m@ == s2@.take(i as int).map_values(
                |c: char| if is_forbidden_char(c) { '_' } else { c },
            ),
        decreases n2 - i,
    {
        let c = s2.get_char(i);
        let d = if c == '\\' || c == '/' || c == ':' || c == '*' || c == '?' || c == '"' || c
            == '<' || c == '>' || c == '|' {
            '_'
        } else {
            c
        };
        let ghost before = m@;
        push_char(&mut m, d);
        proof {
            assert(s2@.take(i + 1) =~= s2@.take(i as int).push(c));
            assert(m@ =~= s2@.take(i + 1).map_values(
                |c: char| if is_forbidden_char(c) { '_' } else { c },
            ));
        }
        i = i + 1;
    }
    proof {
        assert(s2@.take(n2 as int) =~= s2@);
        if prefixed {
            assert(s@.subrange(3, n as int) =~= s@.skip(3));
        }
    }
    let t = trim_str(m.as_str());
    let n3 = t.unicode_len();
    if n3 > 120 {
        let cut = t.substring_char(0, 120);
        proof {
            assert(t@.subrange(0, 120) =~= t@.take(120));
        }
        cut.to_owned()
    } else {
        t.to_owned()
    }
}

/// A normalised order number is fit for a file name: it holds none of the
/// characters file names may not hold, has at most 120 characters, and does
/// not begin with white space.
pub proof fn lemma_order_no_fit_for_file_name(raw: Seq<char>)
    ensures
        order_no_text(raw).len() <= max_order_no_chars(),
        forall|i: int|
            0 <= i < order_no_text(raw).len() ==> !is_forbidden_char(#[trigger] order_no_text(raw)[i]),
        order_no_text(raw).len() > 0 ==> !is_white_space(order_no_text(raw)[0]),
{
    let s = trim_white(raw);
    let s = if has_no_prefix(s) {
        trim_white(s.skip(3))
    } else {
        s
    };
    let m = s.map_values(|c: char| if is_forbidden_char(c) { '_' } else { c });
    let t = trim_white(m);
    lemma_trim_white(m);
    let (i, j) = choose|i: int, j: int| 0 <= i <= j <= m.len() && t == m.subrange(i, j);
    assert forall|k: int| 0 <= k < t.len() implies !is_forbidden_char(#[trigger] t[k]) by {
        assert(t[k] == m[i + k]);
    }
    if t.len() > max_order_no_chars() {
        assert forall|k: int| 0 <= k < t.take(120).len() implies !is_forbidden_char(
            #[trigger] t.take(120)[k],
        ) by {
            assert(t.take(120)[k] == t[k]);
        }
    }
}

/// An order number with no white space, no `No.` in front and at most 120
/// characters keeps every character but the nine that file names may not
/// hold (`\ / : * ? " < > |`), each of which becomes `_`.
pub proof fn lemma_order_no_replaces_forbidden(raw: Seq<char>)
    requires
        raw.len() <= 120,
        forall|i: int| 0 <= i < raw.len() ==> !is_white_space(#[trigger] raw[i]),
        !(raw.len() >= 3 && (raw[0] == 'n' || raw[0] == 'N') && (raw[1] == 'o' || raw[1] == 'O')
            && raw[2] == '.'),
    ensures
        order_no_text(raw).len() == raw.len(),
        forall|i: int|
            0 <= i < raw.len() ==> #[trigger] order_no_text(raw)[i] == (if raw[i] == '\\' || raw[i]
                == '/' || raw[i] == ':' || raw[i] == '*' || raw[i] == '?' || raw[i] == '"' || raw[i]
                == '<' || raw[i] == '>' || raw[i] == '|' {
                '_'
            } else {
                raw[i]
            }),
{
    let f = |c: char| is_white_space(c);
    if raw.len() > 0 {
        assert(!f(raw[0]));
        assert(!f(raw.last()));
    }
    assert(drop_leading(raw, f) == raw);
    assert(drop_trailing(raw, f) == raw);
    assert(trim_white(raw) == raw);
    let m = raw.map_values(|c: char| if is_forbidden_char(c) { '_' } else { c });
    if m.len() > 0 {
        assert(m[0] == (if is_forbidden_char(raw[0]) { '_' } else { raw[0] }));
        assert(!f(m[0]));
        assert(m.last() == m[m.len() - 1]);
        assert(!f(m.last()));
    }
    assert(drop_leading(m, f) == m);
    assert(drop_trailing(m, f) == m);
    assert(trim_white(m) == m);
}

/// White space in front is dropped by trimming.
proof fn lemma_drop_white_front(gap: Seq<char>, x: Seq<char>)
    requires
        forall|i: int| 0 <= i < gap.len() ==> is_white_space(#[trigger] gap[i]),
    ensures
        drop_leading(gap + x, |c: char| is_white_space(c)) == drop_leading(x, |c: char| is_white_space(c)),
    decreases gap.len(),
{
    if gap.len() > 0 {
        assert((gap + x)[0] == gap[0]);
        assert((gap + x).drop_first() =~= gap.drop_first() + x);
        lemma_drop_white_front(gap.drop_first(), x);
    } else {
        assert(gap + x =~= x);
    }
}

/// A leading `No.` (any case of `N` and `o`), with or without white space
/// after it, is dropped: `No.` in front of a number with no white space at
/// its ends (and no `No.` of its own) normalises as the number alone does.
pub proof fn lemma_order_no_drops_no_prefix(c0: char, c1: char, gap: Seq<char>, x: Seq<char>)
    requires
        c0 == 'N' || c0 == 'n',
        c1 == 'o' || c1 == 'O',
        forall|i: int| 0 <= i < gap.len() ==> is_white_space(#[trigger] gap[i]),
        x.len() > 0,
        !is_white_space(x[0]),
        !is_white_space(x.last()),
        !(x.len() >= 3 && (x[0] == 'n' || x[0] == 'N') && (x[1] == 'o' || x[1] == 'O') && x[2] == '.'),
    ensures
        order_no_text(seq![c0, c1, '.'] + gap + x) == order_no_text(x),
{
    let f = |c: char| is_white_space(c);
    let raw = seq![c0, c1, '.'] + gap + x;
    assert(raw[0] == c0);
    assert(raw.last() == x.last());
    assert(drop_leading(raw, f) == raw);
    assert(drop_trailing(raw, f) == raw);
    assert(trim_white(raw) == raw);
    assert(has_no_prefix(raw));
    assert(raw.skip(3) =~= gap + x);
    lemma_drop_white_front(gap, x);
    assert(drop_leading(x, f) == x);
    assert(drop_trailing(x, f) == x);
    assert(trim_white(raw.skip(3)) == x);
    assert(trim_white(x) == x);
    assert(!has_no_prefix(x));
}

} // verus!
