//! Whether an expression expands does not depend on anything but its text
//! and options, as long as no field uses the random `r` form: every result
//! that `expand` may give is then `Ok`, or every one is an error.
use vstd::prelude::*;
use crate::error::CroniterError;
use crate::expand::{
    arranged, canonical, columns_of, completes, expand_gives, expanded_from, expansion, fields_outcome, hash_step,
    has_plain_weekday, is_nth_key, items_views, item_lt, joined_words, keep_explicit, mixes_nth, nth_table,
    mix_message, nth_parts, plain_parts, strict_refuses, strictly_sorted, strings_view, table_parts, ExpandCtx, Expanded,
};
use crate::consts::DOW_FIELD;
use crate::hash::{hash_outcome, is_hash_expr, HashForm};
use crate::item::{Item, Nth};

verus! {

/// Two strictly sorted lists with the same items are the same list.
proof fn lemma_sorted_same(a: Seq<Item>, b: Seq<Item>)
    requires
        strictly_sorted(a),
        strictly_sorted(b),
        forall|x: Item| a.contains(x) <==> b.contains(x),
    ensures
        a == b,
    decreases a.len(),
{
    if a.len() == 0 {
        if b.len() > 0 {
            assert(b.contains(b[0]));
        }
        assert(a =~= b);
    } else {
        assert(a.contains(a[0]));
        assert(b.len() > 0);
        assert(b.contains(b[0]));
        let j = choose|j: int| 0 <= j < b.len() && b[j] == a[0];
        let k = choose|k: int| 0 <= k < a.len() && a[k] == b[0];
        if j > 0 && k > 0 {
            assert(item_lt(b[0], b[j]));
            assert(item_lt(a[0], a[k]));
            assert(false);
        } else if j > 0 {
            assert(item_lt(b[0], b[j]));
            assert(a[0] == b[0]);
        }
        assert(a[0] == b[0]);
        let a1 = a.drop_first();
        let b1 = b.drop_first();
        assert forall|x: Item| a1.contains(x) <==> b1.contains(x) by {
            if a1.contains(x) {
                let i = choose|i: int| 0 <= i < a1.len() && a1[i] == x;
                assert(item_lt(a[0], a[i + 1]));
                assert(b.contains(x));
                let m = choose|m: int| 0 <= m < b.len() && b[m] == x;
                if m == 0 {
                    assert(false);
                }
                assert(b1[m - 1] == x);
            }
            if b1.contains(x) {
                let i = choose|i: int| 0 <= i < b1.len() && b1[i] == x;
                assert(item_lt(b[0], b[i + 1]));
                assert(a.contains(x));
                let m = choose|m: int| 0 <= m < a.len() && a[m] == x;
                if m == 0 {
                    assert(false);
                }
                assert(a1[m - 1] == x);
            }
        }
        lemma_sorted_same(a1, b1);
        assert(a =~= seq![a[0]] + a1);
        assert(b =~= seq![b[0]] + b1);
    }
}

/// Two outcomes of a hash step that carry the same text, or the same error.
pub open spec fn same_outcome(a: Result<String, CroniterError>, b: Result<String, CroniterError>) -> bool {
    match (a, b) {
        (Ok(x), Ok(y)) => x@ == y@,
        (Err(x), Err(y)) => x@ == y@,
        _ => false,
    }
}

/// Without the random form, a column's hash step has one outcome.
proof fn lemma_hash_step_same(f: int, col: Seq<char>, id: Option<Seq<u8>>, o1: Result<String, CroniterError>,
    o2: Result<String, CroniterError>)
    requires
        hash_step(f, col, id, o1),
        hash_step(f, col, id, o2),
        forall|hf: HashForm| is_hash_expr(col, hf) ==> !hf.random,
    ensures
        same_outcome(o1, o2),
{
    if exists|hf: HashForm| is_hash_expr(col, hf) {
        let hf = choose|hf: HashForm| is_hash_expr(col, hf);
        assert(hash_outcome(f, col, hf, id, o1));
        assert(hash_outcome(f, col, hf, id, o2));
    }
}

/// Fields read from hash steps with the same outcomes give the same yields.
proof fn lemma_fields_same(x: ExpandCtx, h1: Seq<Result<String, CroniterError>>, h2: Seq<Result<String, CroniterError>>, k: int)
    requires
        k <= h1.len(),
        k <= h2.len(),
        forall|f: int| 0 <= f < k ==> same_outcome(#[trigger] h1[f], h2[f]),
    ensures
        fields_outcome(x, h1, k) == fields_outcome(x, h2, k),
    decreases k,
{
    if k > 0 {
        lemma_fields_same(x, h1, h2, k - 1);
        assert(same_outcome(h1[k - 1], h2[k - 1]));
    }
}

/// Fields that read without a refusal read without one up to any point.
proof fn lemma_fields_prefix(x: ExpandCtx, h: Seq<Result<String, CroniterError>>, k: int, n: int)
    requires
        0 <= k <= n,
        fields_outcome(x, h, n) is Ok,
    ensures
        fields_outcome(x, h, k) is Ok,
    decreases n,
{
    if k < n {
        lemma_fields_prefix(x, h, k, n - 1);
    }
}

/// A field has one canonical value list.
proof fn lemma_canonical_same(ys: Seq<crate::expand::Yield>, f: int, keep: bool, r1: Seq<Item>, r2: Seq<Item>)
    requires
        canonical(ys, f, keep, r1),
        canonical(ys, f, keep, r2),
    ensures
        r1 == r2,
{
    let a = choose|r0: Seq<Item>| #[trigger] strictly_sorted(r0)
        && (forall|x: Item| r0.contains(x) <==> crate::expand::yields_item(ys, x))
        && r1 == (if r0.len() == crate::consts::len_means_all(f) && !keep { seq![Item::Star] } else { r0 });
    let b = choose|r0: Seq<Item>| #[trigger] strictly_sorted(r0)
        && (forall|x: Item| r0.contains(x) <==> crate::expand::yields_item(ys, x))
        && r2 == (if r0.len() == crate::consts::len_means_all(f) && !keep { seq![Item::Star] } else { r0 });
    lemma_sorted_same(a, b);
}

/// Two expansions that agree in everything a search or a message reads:
/// the value lists, which qualifiers each weekday carries, the `W` days and
/// the field texts.
pub open spec fn same_expansion(a: Expanded, b: Expanded) -> bool {
    &&& items_views(a.expanded@) == items_views(b.expanded@)
    &&& a.nth_weekday_of_month@.len() == b.nth_weekday_of_month@.len()
    &&& forall|w: int, n: Nth| 0 <= w < a.nth_weekday_of_month@.len() ==>
        (#[trigger] a.nth_weekday_of_month@[w]@.contains(n) <==> b.nth_weekday_of_month@[w]@.contains(n))
    &&& forall|d: i64| #[trigger] a.nearest_weekday@.contains(d) <==> b.nearest_weekday@.contains(d)
    &&& strings_view(a.expressions@) == strings_view(b.expressions@)
}

proof fn lemma_nth_parts_same(l1: Seq<Nth>, l2: Seq<Nth>, k: int)
    requires
        forall|n: Nth| l1.contains(n) <==> l2.contains(n),
    ensures
        nth_parts(l1, k) == nth_parts(l2, k),
    decreases k,
{
    if k > 0 {
        lemma_nth_parts_same(l1, l2, k - 1);
    }
}

proof fn lemma_table_parts_same(t1: Seq<Vec<Nth>>, t2: Seq<Vec<Nth>>, w: int)
    requires
        w <= t1.len(),
        w <= t2.len(),
        forall|v: int, n: Nth| 0 <= v < w ==> (#[trigger] t1[v]@.contains(n) <==> t2[v]@.contains(n)),
        forall|v: int| 0 <= v < w ==> (#[trigger] t1[v]@.len() > 0) == (t2[v]@.len() > 0),
    ensures
        table_parts(t1, w) == table_parts(t2, w),
    decreases w,
{
    if w > 0 {
        lemma_table_parts_same(t1, t2, w - 1);
        assert forall|n: Nth| #[trigger] t1[w - 1]@.contains(n) <==> t2[w - 1]@.contains(n) by {}
        lemma_nth_parts_same(t1[w - 1]@, t2[w - 1]@, 6);
        assert((t1[w - 1]@.len() > 0) == (t2[w - 1]@.len() > 0));
    }
}

proof fn lemma_plain_parts_same(d: Seq<Item>, t1: Seq<Vec<Nth>>, t2: Seq<Vec<Nth>>, k: int)
    requires
        k <= d.len(),
        forall|x: Item| #[trigger] is_nth_key(t1, x) == is_nth_key(t2, x),
    ensures
        plain_parts(d, t1, k) == plain_parts(d, t2, k),
    decreases k,
{
    if k > 0 {
        lemma_plain_parts_same(d, t1, t2, k - 1);
        assert(is_nth_key(t1, d[k - 1]) == is_nth_key(t2, d[k - 1]));
    }
}

/// Two expansions from the same yields have the same value lists, and
/// the same weekdays carry qualifiers.
proof fn lemma_expanded_same(fys: Seq<Seq<crate::expand::Yield>>, exprs: Seq<Seq<char>>, e1: Expanded, e2: Expanded)
    requires
        expanded_from(fys, exprs, e1),
        expanded_from(fys, exprs, e2),
        exprs.len() > DOW_FIELD,
    ensures
        items_views(e1.expanded@) == items_views(e2.expanded@),
        mixes_nth(e1.expanded@[DOW_FIELD as int]@, e1.nth_weekday_of_month@)
            == mixes_nth(e2.expanded@[DOW_FIELD as int]@, e2.nth_weekday_of_month@),
        forall|fmt: Seq<char>| #[trigger] mix_message(fmt, e1.expanded@[DOW_FIELD as int]@, e1.nth_weekday_of_month@)
            == mix_message(fmt, e2.expanded@[DOW_FIELD as int]@, e2.nth_weekday_of_month@),
        same_expansion(e1, e2),
{
    assert forall|f: int| 0 <= f < exprs.len() implies #[trigger] e1.expanded@[f]@ == e2.expanded@[f]@ by {
        lemma_canonical_same(fys[f], f, keep_explicit(f, exprs), e1.expanded@[f]@, e2.expanded@[f]@);
    }
    assert(items_views(e1.expanded@) =~= items_views(e2.expanded@));
    let t1 = e1.nth_weekday_of_month@;
    let t2 = e2.nth_weekday_of_month@;
    let ys = fys[DOW_FIELD as int];
    assert forall|w: int| 0 <= w < 7 implies (#[trigger] t1[w]@.len() > 0) == (t2[w]@.len() > 0) by {
        if t1[w]@.len() > 0 {
            let n = t1[w]@[0];
            assert(t1[w]@.contains(n));
            assert(crate::expand::yields_nth(ys, w, n));
            assert(t2[w]@.contains(n));
        }
        if t2[w]@.len() > 0 {
            let n = t2[w]@[0];
            assert(t2[w]@.contains(n));
            assert(crate::expand::yields_nth(ys, w, n));
            assert(t1[w]@.contains(n));
        }
    }
    let d = e1.expanded@[DOW_FIELD as int]@;
    assert(d == e2.expanded@[DOW_FIELD as int]@);
    assert forall|x: Item| #[trigger] is_nth_key(t1, x) == is_nth_key(t2, x) by {}
    assert(has_plain_weekday(d, t1) == has_plain_weekday(d, t2));
    assert forall|w: int, n: Nth| 0 <= w < 7 implies (#[trigger] t1[w]@.contains(n) <==> t2[w]@.contains(n)) by {
        if t1[w]@.contains(n) {
            assert(crate::expand::yields_nth(ys, w, n));
        }
        if t2[w]@.contains(n) {
            assert(crate::expand::yields_nth(ys, w, n));
        }
    }
    lemma_plain_parts_same(d, t1, t2, d.len() as int);
    lemma_table_parts_same(t1, t2, 7);
    assert(t1.len() == 7 && t2.len() == 7);
    assert(strings_view(e1.expressions@) == strings_view(e2.expressions@));
    assert(crate::calc::nth_in_use(t1) == crate::calc::nth_in_use(t2)) by {
        if crate::calc::nth_in_use(t1) {
            let w = choose|w: int| 0 <= w < t1.len() && #[trigger] t1[w]@.len() > 0;
            assert(t2[w]@.len() > 0);
        }
        if crate::calc::nth_in_use(t2) {
            let w = choose|w: int| 0 <= w < t2.len() && #[trigger] t2[w]@.len() > 0;
            assert(t1[w]@.len() > 0);
        }
    }
}

/// No column of the expression is written in the random `r` form.
pub open spec fn no_random_form(expr: Seq<char>, hash_id: Option<Seq<u8>>, second_at_beginning: bool) -> bool {
    let exprs = arranged(columns_of(expr, hash_id is Some), second_at_beginning);
    forall|f: int, hf: HashForm| 0 <= f < exprs.len() && #[trigger] is_hash_expr(exprs[f], hf) ==> !hf.random
}

proof fn lemma_ok_stays_ok(expr: Seq<char>, hash_id: Option<Seq<u8>>, second_at_beginning: bool,
    from_timestamp: Option<i64>, strict: bool, strict_year: Option<Seq<i64>>, r1: Result<Expanded, CroniterError>,
    r2: Result<Expanded, CroniterError>)
    requires
        expand_gives(expr, hash_id, second_at_beginning, from_timestamp, strict, strict_year, r1),
        expand_gives(expr, hash_id, second_at_beginning, from_timestamp, strict, strict_year, r2),
        no_random_form(expr, hash_id, second_at_beginning),
        r1 is Ok,
    ensures
        r2 is Ok,
{
    let cols = columns_of(expr, hash_id is Some);
    let exprs = arranged(cols, second_at_beginning);
    let x = ExpandCtx { columns: exprs.len() as int, format: expr, joined: joined_words(exprs), from_us: from_timestamp };
    assert(5 <= cols.len() <= 7);
    assert(exprs.len() == cols.len());
    let h1 = choose|h: Seq<Result<String, CroniterError>>| #[trigger] expansion(x, exprs, hash_id, strict, strict_year, h, r1);
    let h2 = choose|h: Seq<Result<String, CroniterError>>| #[trigger] expansion(x, exprs, hash_id, strict, strict_year, h, r2);
    let n = exprs.len() as int;
    let k = h2.len() as int;
    assert(fields_outcome(x, h1, h1.len() as int) is Ok);
    assert(h1.len() == n);
    assert forall|f: int| 0 <= f < k implies same_outcome(#[trigger] h1[f], h2[f]) by {
        assert(hash_step(f, exprs[f], hash_id, h1[f]));
        assert(hash_step(f, exprs[f], hash_id, h2[f]));
        assert forall|hf: HashForm| is_hash_expr(exprs[f], hf) implies !hf.random by {
            assert(is_hash_expr(exprs[f], hf));
        }
        lemma_hash_step_same(f, exprs[f], hash_id, h1[f], h2[f]);
    }
    lemma_fields_same(x, h1, h2, k);
    lemma_fields_prefix(x, h1, k, n);
    assert(k == n);
    let fys = fields_outcome(x, h1, n)->Ok_0;
    if r2 is Err {
        let e1 = r1->Ok_0;
        assert(completes(x, exprs, fys, strict, strict_year, r1));
        assert(completes(x, exprs, fys, strict, strict_year, r2));
        let e2 = choose|e: Expanded| #[trigger] expanded_from(fys, exprs, e) && {
            let d = e.expanded@[DOW_FIELD as int]@;
            let t = e.nth_weekday_of_month@;
            ||| mixes_nth(d, t) && r2->Err_0@ == crate::error::ErrorView::UnsupportedSyntax(crate::expand::mix_message(x.format, d, t))
            ||| !mixes_nth(d, t) && strict && strict_refuses(items_views(e.expanded@), strict_year)
                && r2->Err_0@ == crate::error::ErrorView::BadCron(crate::expand::strict_message(x.format, items_views(e.expanded@)))
        };
        lemma_expanded_same(fys, exprs, e1, e2);
    }
}

/// Once the fields read so far meet a refusal, it is the outcome of all
/// the fields.
proof fn lemma_fields_err_stays(x: ExpandCtx, h: Seq<Result<String, CroniterError>>, k: int, m: int)
    requires
        0 <= k <= m,
        fields_outcome(x, h, k) is Err,
    ensures
        fields_outcome(x, h, m) == fields_outcome(x, h, k),
    decreases m,
{
    if k < m {
        lemma_fields_err_stays(x, h, k, m - 1);
    }
}

/// Without the random `r` form, expanding an expression is a function of
/// its text and options: any two results it may give are both errors with
/// the same kind and message, or both expansions with the same value lists,
/// qualifiers, `W` days and field texts.
pub proof fn lemma_expand_same(expr: Seq<char>, hash_id: Option<Seq<u8>>, second_at_beginning: bool,
    from_timestamp: Option<i64>, strict: bool, strict_year: Option<Seq<i64>>, r1: Result<Expanded, CroniterError>,
    r2: Result<Expanded, CroniterError>)
    requires
        expand_gives(expr, hash_id, second_at_beginning, from_timestamp, strict, strict_year, r1),
        expand_gives(expr, hash_id, second_at_beginning, from_timestamp, strict, strict_year, r2),
        no_random_form(expr, hash_id, second_at_beginning),
    ensures
        r1 is Ok <==> r2 is Ok,
        (r1 is Err && r2 is Err) ==> r1->Err_0@ == r2->Err_0@,
        (r1 is Ok && r2 is Ok) ==> same_expansion(r1->Ok_0, r2->Ok_0),
{
    let cols = columns_of(expr, hash_id is Some);
    let exprs = arranged(cols, second_at_beginning);
    let x = ExpandCtx { columns: exprs.len() as int, format: expr, joined: joined_words(exprs), from_us: from_timestamp };
    if !(5 <= cols.len() <= 7) {
        return;
    }
    assert(exprs.len() == cols.len());
    let h1 = choose|h: Seq<Result<String, CroniterError>>| #[trigger] expansion(x, exprs, hash_id, strict, strict_year, h, r1);
    let h2 = choose|h: Seq<Result<String, CroniterError>>| #[trigger] expansion(x, exprs, hash_id, strict, strict_year, h, r2);
    let n = exprs.len() as int;
    let l1 = h1.len() as int;
    let l2 = h2.len() as int;
    let k = if l1 <= l2 { l1 } else { l2 };
    assert forall|f: int| 0 <= f < k implies same_outcome(#[trigger] h1[f], h2[f]) by {
        assert(hash_step(f, exprs[f], hash_id, h1[f]));
        assert(hash_step(f, exprs[f], hash_id, h2[f]));
        assert forall|hf: HashForm| is_hash_expr(exprs[f], hf) implies !hf.random by {
            assert(is_hash_expr(exprs[f], hf));
        }
        lemma_hash_step_same(f, exprs[f], hash_id, h1[f], h2[f]);
    }
    lemma_fields_same(x, h1, h2, k);
    if fields_outcome(x, h1, k) is Err {
        lemma_fields_err_stays(x, h1, k, l1);
        lemma_fields_err_stays(x, h2, k, l2);
        return;
    }
    if l1 <= l2 {
        assert(l1 == n);
    } else {
        assert(l2 == n);
    }
    assert(l1 == n && l2 == n);
    let fys = fields_outcome(x, h1, n)->Ok_0;
    assert(completes(x, exprs, fys, strict, strict_year, r1));
    assert(completes(x, exprs, fys, strict, strict_year, r2));
    if r1 is Ok {
        if r2 is Ok {
            lemma_expanded_same(fys, exprs, r1->Ok_0, r2->Ok_0);
        } else {
            lemma_ok_stays_ok(expr, hash_id, second_at_beginning, from_timestamp, strict, strict_year, r1, r2);
        }
    } else if r2 is Ok {
        lemma_ok_stays_ok(expr, hash_id, second_at_beginning, from_timestamp, strict, strict_year, r2, r1);
    } else {
        let a = choose|e: Expanded| #[trigger] expanded_from(fys, exprs, e) && {
            let d = e.expanded@[DOW_FIELD as int]@;
            let t = e.nth_weekday_of_month@;
            ||| mixes_nth(d, t) && r1->Err_0@ == crate::error::ErrorView::UnsupportedSyntax(mix_message(x.format, d, t))
            ||| !mixes_nth(d, t) && strict && strict_refuses(items_views(e.expanded@), strict_year)
                && r1->Err_0@ == crate::error::ErrorView::BadCron(crate::expand::strict_message(x.format, items_views(e.expanded@)))
        };
        let b = choose|e: Expanded| #[trigger] expanded_from(fys, exprs, e) && {
            let d = e.expanded@[DOW_FIELD as int]@;
            let t = e.nth_weekday_of_month@;
            ||| mixes_nth(d, t) && r2->Err_0@ == crate::error::ErrorView::UnsupportedSyntax(mix_message(x.format, d, t))
            ||| !mixes_nth(d, t) && strict && strict_refuses(items_views(e.expanded@), strict_year)
                && r2->Err_0@ == crate::error::ErrorView::BadCron(crate::expand::strict_message(x.format, items_views(e.expanded@)))
        };
        lemma_expanded_same(fys, exprs, a, b);
        assert(mix_message(x.format, a.expanded@[DOW_FIELD as int]@, a.nth_weekday_of_month@)
            == mix_message(x.format, b.expanded@[DOW_FIELD as int]@, b.nth_weekday_of_month@));
    }
}

/// Without the random `r` form, whether an expression expands is settled
/// by its text and options alone: any two results that expanding it may
/// give are both `Ok` or both errors, so `is_valid` answers whether
/// `expand` succeeds.
pub proof fn lemma_valid_agrees(expr: Seq<char>, hash_id: Option<Seq<u8>>, second_at_beginning: bool,
    from_timestamp: Option<i64>, strict: bool, strict_year: Option<Seq<i64>>, r1: Result<Expanded, CroniterError>,
    r2: Result<Expanded, CroniterError>)
    requires
        expand_gives(expr, hash_id, second_at_beginning, from_timestamp, strict, strict_year, r1),
        expand_gives(expr, hash_id, second_at_beginning, from_timestamp, strict, strict_year, r2),
        no_random_form(expr, hash_id, second_at_beginning),
    ensures
        r1 is Ok <==> r2 is Ok,
{
    if r1 is Ok {
        lemma_ok_stays_ok(expr, hash_id, second_at_beginning, from_timestamp, strict, strict_year, r1, r2);
    }
    if r2 is Ok {
        lemma_ok_stays_ok(expr, hash_id, second_at_beginning, from_timestamp, strict, strict_year, r2, r1);
    }
}

} // verus!
