//! Choosing the products of the input that are converted, and their order.

use vstd::prelude::*;

use vstd::string::StringExecFns;

use crate::model::{GeneratingProcessType, GpvProductIdentifier, PreparedProduct, RawProduct};
use crate::text::{
    copy_texts, join, joined, lemma_text_leq_antisymmetric,
    lemma_text_leq_total, lemma_text_leq_transitive, signed_decimal, signed_decimal_text,
    text_at_most, text_leq, texts,
};

verus! {

/// Something that is known by the identifier of a product.
pub trait IdentifiedProduct: Sized {
    spec fn id(&self) -> GpvProductIdentifier;

    fn product_id(&self) -> (id: &GpvProductIdentifier)
        ensures
            *id == self.id(),
    ;
}

impl IdentifiedProduct for PreparedProduct {
    open spec fn id(&self) -> GpvProductIdentifier {
        self.product_id
    }

    fn product_id(&self) -> (id: &GpvProductIdentifier) {
        &self.product_id
    }
}

impl IdentifiedProduct for RawProduct {
    open spec fn id(&self) -> GpvProductIdentifier {
        self.product_id
    }

    fn product_id(&self) -> (id: &GpvProductIdentifier) {
        &self.product_id
    }
}

/// Why no products can be chosen.
#[derive(Debug)]
pub enum SelectionError {
    /// There is nothing to choose from.
    NoProducts,
    /// The product that is asked for is not there.
    NotPresent { requested: String, available: Vec<String> },
    /// There are several products, and none is asked for.
    Several { available: Vec<String> },
    /// Nothing is far enough ahead of its reference time.
    LeadTime { minutes: i64, product: String },
    /// There are only analyses.
    OnlyAnalyses { product: String },
}

/// The list holds the same texts as the other, each once, in ascending order.
pub open spec fn lists(list: Seq<Seq<char>>, items: Seq<Seq<char>>) -> bool {
    &&& forall|i: int, j: int|
        #![trigger list[i], list[j]]
        0 <= i < j < list.len() ==> text_leq(list[i], list[j]) && list[i] != list[j]
    &&& forall|x: Seq<char>| #[trigger] list.contains(x) <==> items.contains(x)
}

/// There is only one such list, so the order of the items does not matter.
pub proof fn lemma_lists_once(a: Seq<Seq<char>>, b: Seq<Seq<char>>, items: Seq<Seq<char>>)
    requires
        lists(a, items),
        lists(b, items),
    ensures
        a == b,
    decreases a.len(),
{
    if a.len() == 0 {
        if b.len() > 0 {
            assert(b.contains(b[0]));
            assert(a.contains(b[0]));
        }
    } else {
        assert(a.contains(a[0]));
        assert(b.contains(a[0]));
        let k = choose|k: int| 0 <= k < b.len() && b[k] == a[0];
        assert(b.contains(b[0]));
        assert(a.contains(b[0]));
        let n = choose|n: int| 0 <= n < a.len() && a[n] == b[0];
        if k > 0 && n > 0 {
            assert(text_leq(b[0], b[k]) && text_leq(a[0], a[n]));
            lemma_text_leq_antisymmetric(a[0], b[0]);
        }
        assert(a[0] == b[0]);
        let rest = without(items, a[0]);
        lemma_tail_lists(a, items);
        lemma_tail_lists(b, items);
        lemma_lists_once(a.skip(1), b.skip(1), rest);
        assert(a =~= seq![a[0]] + a.skip(1));
        assert(b =~= seq![b[0]] + b.skip(1));
    }
}

spec fn differs(one: Seq<char>) -> spec_fn(Seq<char>) -> bool {
    |x: Seq<char>| x != one
}

/// The items other than one.
spec fn without(items: Seq<Seq<char>>, one: Seq<char>) -> Seq<Seq<char>> {
    items.filter(differs(one))
}

proof fn lemma_tail_lists(a: Seq<Seq<char>>, items: Seq<Seq<char>>)
    requires
        lists(a, items),
        a.len() > 0,
    ensures
        lists(a.skip(1), without(items, a[0])),
{
    let first = a[0];
    let f = differs(first);
    let rest = without(items, first);
    let tail = a.skip(1);
    assert forall|i: int, j: int|
        #![trigger tail[i], tail[j]]
        0 <= i < j < tail.len() implies text_leq(tail[i], tail[j]) && tail[i] != tail[j] by {
        assert(tail[i] == a[i + 1] && tail[j] == a[j + 1]);
    }
    assert forall|x: Seq<char>| #[trigger] tail.contains(x) <==> rest.contains(x) by {
        lemma_filter_contains(items, f, x);
        if tail.contains(x) {
            let i = choose|i: int| 0 <= i < tail.len() && tail[i] == x;
            assert(a[i + 1] == x);
            assert(a.contains(x));
            assert(a[0] != a[i + 1]);
        }
        if rest.contains(x) {
            assert(a.contains(x));
            let i = choose|i: int| 0 <= i < a.len() && a[i] == x;
            assert(tail[i - 1] == x);
        }
    }
}

/// A filtered sequence holds what passes the filter.
proof fn lemma_filter_contains<A>(s: Seq<A>, f: spec_fn(A) -> bool, x: A)
    ensures
        s.filter(f).contains(x) <==> s.contains(x) && f(x),
    decreases s.len(),
{
    reveal(Seq::filter);
    if s.len() > 0 {
        let before = s.drop_last();
        lemma_filter_contains(before, f, x);
        let kept = before.filter(f);
        if s.contains(x) && f(x) {
            if before.contains(x) {
                let i = choose|i: int| 0 <= i < kept.len() && kept[i] == x;
                assert(s.filter(f)[i] == x);
            } else {
                let i = choose|i: int| 0 <= i < s.len() && s[i] == x;
                if i < before.len() {
                    assert(before[i] == x);
                }
                assert(s.last() == x);
                assert(s.filter(f)[kept.len() as int] == x);
            }
        }
        if s.filter(f).contains(x) {
            let i = choose|i: int| 0 <= i < s.filter(f).len() && s.filter(f)[i] == x;
            if i < kept.len() {
                assert(kept[i] == x);
                assert(kept.contains(x));
                let j = choose|j: int| 0 <= j < before.len() && before[j] == x;
                assert(s[j] == x);
            } else {
                assert(s[s.len() - 1] == x);
            }
        }
    }
}

/// The texts by which the products are selected.
pub open spec fn selectors<T: IdentifiedProduct>(products: Seq<T>) -> Seq<Seq<char>> {
    products.map_values(|p: T| p.id().selector())
}

/// Adds a text to a list, unless it is there.
fn add_choice(list: &mut Vec<String>, text: String)
    requires
        exists|items: Seq<Seq<char>>| #[trigger] lists(texts(old(list)@), items),
    ensures
        forall|items: Seq<Seq<char>>|
            lists(texts(old(list)@), items) ==> #[trigger] lists(
                texts(final(list)@),
                items.push(text@),
            ),
{
    let ghost given = texts(list@);
    let ghost known = choose|items: Seq<Seq<char>>| #[trigger] lists(given, items);
    let mut i: usize = 0;
    while i < list.len() && !text_at_most(text.as_str(), list[i].as_str())
        invariant
            i <= list@.len(),
            list@ == old(list)@,
            given == texts(list@),
            forall|k: int| 0 <= k < i ==> !text_leq(text@, #[trigger] given[k]),
        decreases list@.len() - i,
    {
        proof {
            assert(given[i as int] == list@[i as int]@);
        }
        i = i + 1;
    }
    if i < list.len() && list[i] == text {
        proof {
            assert(given[i as int] == text@);
            assert forall|items: Seq<Seq<char>>| lists(given, items) implies #[trigger] lists(
                given,
                items.push(text@),
            ) by {
                assert forall|x: Seq<char>| #[trigger]
                    given.contains(x) <==> items.push(text@).contains(x) by {
                    lemma_push_contains(items, text@, x);
                    assert(given.contains(given[i as int]));
                }
            }
        }
        return ;
    }
    list.insert(i, text);
    proof {
        let after = texts(list@);
        assert(after =~= given.insert(i as int, text@));
        assert forall|items: Seq<Seq<char>>| lists(given, items) implies #[trigger] lists(
            after,
            items.push(text@),
        ) by {
            assert forall|a: int, b: int|
                #![trigger after[a], after[b]]
                0 <= a < b < after.len() implies text_leq(after[a], after[b]) && after[a]
                != after[b] by {
                lemma_inserted_order(given, items, text@, i as int, a, b);
            }
            assert forall|x: Seq<char>| #[trigger]
                after.contains(x) <==> items.push(text@).contains(x) by {
                lemma_push_contains(items, text@, x);
                if after.contains(x) {
                    let k = choose|k: int| 0 <= k < after.len() && after[k] == x;
                    if k < i {
                        assert(given[k] == x);
                        assert(given.contains(x));
                    } else if k > i {
                        assert(given[k - 1] == x);
                        assert(given.contains(x));
                    }
                }
                if x == text@ {
                    assert(after[i as int] == x);
                } else if given.contains(x) {
                    let k = choose|k: int| 0 <= k < given.len() && given[k] == x;
                    if k < i {
                        assert(after[k] == x);
                    } else {
                        assert(after[k + 1] == x);
                    }
                }
            }
        }
    }
}

proof fn lemma_push_contains<A>(s: Seq<A>, a: A, x: A)
    ensures
        s.push(a).contains(x) <==> s.contains(x) || x == a,
{
    if s.contains(x) {
        let i = choose|i: int| 0 <= i < s.len() && s[i] == x;
        assert(s.push(a)[i] == x);
    }
    assert(s.push(a)[s.len() as int] == a);
    if s.push(a).contains(x) && x != a {
        let i = choose|i: int| 0 <= i < s.push(a).len() && s.push(a)[i] == x;
        assert(s[i] == x);
    }
}

proof fn lemma_inserted_order(
    given: Seq<Seq<char>>,
    items: Seq<Seq<char>>,
    text: Seq<char>,
    i: int,
    a: int,
    b: int,
)
    requires
        lists(given, items),
        0 <= i <= given.len(),
        forall|k: int| 0 <= k < i ==> !text_leq(text, #[trigger] given[k]),
        i < given.len() ==> text_leq(text, given[i]) && given[i] != text,
        0 <= a < b <= given.len(),
    ensures
        text_leq(given.insert(i, text)[a], given.insert(i, text)[b]),
        given.insert(i, text)[a] != given.insert(i, text)[b],
{
    if a < i {
        assert(!text_leq(text, given[a]));
        lemma_text_leq_total(text, given[a]);
        lemma_text_leq_total(text, text);
    }
    if a == i {
        if b - 1 > i {
            assert(text_leq(given[i], given[b - 1]) && given[i] != given[b - 1]);
            lemma_text_leq_transitive(text, given[i], given[b - 1]);
            if text == given[b - 1] {
                lemma_text_leq_antisymmetric(given[i], given[b - 1]);
            }
        }
    } else if b == i {
    } else {
        let p = if a < i {
            a
        } else {
            a - 1
        };
        let q = if b < i {
            b
        } else {
            b - 1
        };
        assert(text_leq(given[p], given[q]) && given[p] != given[q]);
    }
}

/// The products that the input holds, each once, in ascending order.
pub fn available_products<T: IdentifiedProduct>(products: &Vec<T>) -> (available: Vec<String>)
    ensures
        lists(texts(available@), selectors(products@)),
{
    let mut available: Vec<String> = Vec::new();
    let mut i: usize = 0;
    proof {
        assert(texts(available@) =~= Seq::empty());
        assert(selectors(products@.take(0)) =~= Seq::empty());
        assert forall|x: Seq<char>| #[trigger]
            texts(available@).contains(x) <==> selectors(products@.take(0)).contains(x) by {}
        assert(lists(texts(available@), selectors(products@.take(0))));
    }
    while i < products.len()
        invariant
            i <= products@.len(),
            lists(texts(available@), selectors(products@.take(i as int))),
        decreases products@.len() - i,
    {
        let ghost seen = selectors(products@.take(i as int));
        let selector = products[i].product_id().product_selector();
        let ghost next = selector@;
        add_choice(&mut available, selector);
        proof {
            assert(selectors(products@.take(i + 1)) =~= seen.push(next));
            assert(lists(texts(available@), seen.push(next)));
        }
        i = i + 1;
    }
    assert(products@.take(products@.len() as int) =~= products@);
    available
}

/// The choices as they are offered to the user.
pub open spec fn choices_text(available: Seq<Seq<char>>) -> Seq<char> {
    joined(available.map_values(|x: Seq<char>| "  --product "@ + x), "\n"@)
}

pub fn product_choices(available: &Vec<String>) -> (text: String)
    ensures
        text@ == choices_text(texts(available@)),
{
    let mut lines: Vec<String> = Vec::new();
    let mut i: usize = 0;
    while i < available.len()
        invariant
            i <= available@.len(),
            lines@.len() == i,
            forall|k: int|
                0 <= k < i ==> (#[trigger] lines@[k])@ == "  --product "@ + available@[k]@,
        decreases available@.len() - i,
    {
        let mut line = String::from_str("  --product ");
        line.append(available[i].as_str());
        lines.push(line);
        i = i + 1;
    }
    proof {
        assert(texts(lines@) =~= texts(available@).map_values(
            |x: Seq<char>| "  --product "@ + x,
        ));
    }
    join(&lines, "\n")
}

/// The product that is asked for, or the only one where none is.
pub fn resolve_product_selector(available: &Vec<String>, requested: Option<&str>) -> (outcome:
    Result<String, SelectionError>)
    ensures
        match (outcome, requested) {
            (Ok(selected), Some(wanted)) => selected@ == wanted@ && texts(available@).contains(
                wanted@,
            ),
            (Ok(selected), None) => available@.len() == 1 && selected@ == available@[0]@,
            (Err(SelectionError::NotPresent { requested: r, available: a }), Some(wanted)) => {
                &&& !texts(available@).contains(wanted@)
                &&& r@ == wanted@
                &&& texts(a@) == texts(available@)
            },
            (Err(SelectionError::Several { available: a }), None) => {
                &&& available@.len() != 1
                &&& texts(a@) == texts(available@)
            },
            _ => false,
        },
{
    match requested {
        Some(wanted) => {
            let name = String::from_str(wanted);
            let mut i: usize = 0;
            while i < available.len()
                invariant
                    i <= available@.len(),
                    requested == Some(wanted),
                    name@ == wanted@,
                    forall|k: int| 0 <= k < i ==> (#[trigger] available@[k])@ != wanted@,
                decreases available@.len() - i,
            {
                if available[i] == name {
                    proof {
                        assert(texts(available@)[i as int] == wanted@);
                    }
                    return Ok(name);
                }
                i = i + 1;
            }
            proof {
                if texts(available@).contains(wanted@) {
                    let k = choose|k: int|
                        0 <= k < texts(available@).len() && texts(available@)[k] == wanted@;
                    assert(available@[k]@ == wanted@);
                }
            }
            Err(SelectionError::NotPresent { requested: name, available: copy_texts(available) })
        },
        None => {
            if available.len() == 1 {
                Ok(available[0].clone())
            } else {
                Err(SelectionError::Several { available: copy_texts(available) })
            }
        },
    }
}

/// The whole minutes from the reference time to the valid time, cut towards
/// zero.
pub open spec fn lead_minutes(id: GpvProductIdentifier) -> int {
    let seconds = id.datetime - id.reference_datetime;
    if seconds >= 0 {
        seconds / 60
    } else {
        -((-seconds) / 60)
    }
}

fn lead_time(id: &GpvProductIdentifier) -> (minutes: i128)
    ensures
        minutes == lead_minutes(*id),
{
    let seconds: i128 = id.datetime as i128 - id.reference_datetime as i128;
    if seconds >= 0 {
        seconds / 60
    } else {
        -((-seconds) / 60)
    }
}

/// What a product has to be to be kept.
pub open spec fn is_of<T: IdentifiedProduct>(selected: Seq<char>) -> spec_fn(T) -> bool {
    |p: T| p.id().selector() == selected
}

pub open spec fn is_ahead<T: IdentifiedProduct>(minutes: int) -> spec_fn(T) -> bool {
    |p: T| lead_minutes(p.id()) >= minutes
}

pub open spec fn is_no_analysis<T: IdentifiedProduct>() -> spec_fn(T) -> bool {
    |p: T| p.id().generating_process != GeneratingProcessType::Analysis
}

/// The products of the selected kind.
pub open spec fn of_product<T: IdentifiedProduct>(products: Seq<T>, selected: Seq<char>) -> Seq<T> {
    products.filter(is_of(selected))
}

/// Those among them that are far enough ahead.
pub open spec fn ahead<T: IdentifiedProduct>(products: Seq<T>, minutes: Option<i64>) -> Seq<T> {
    match minutes {
        Some(minutes) => products.filter(is_ahead(minutes as int)),
        None => products,
    }
}

/// Those among them that are no analyses, where these are skipped.
pub open spec fn without_analyses<T: IdentifiedProduct>(products: Seq<T>, skip: bool) -> Seq<T> {
    if skip {
        products.filter(is_no_analysis())
    } else {
        products
    }
}

/// The first product may stand before the second: by valid time, and by path
/// where that is the same.
pub open spec fn in_time<T: IdentifiedProduct>(a: T, b: T) -> bool {
    ||| a.id().datetime < b.id().datetime
    ||| a.id().datetime == b.id().datetime && text_leq(a.id().path@, b.id().path@)
}

/// A sequence in order with one more product, behind those that may stand before
/// it.
pub open spec fn placed<T: IdentifiedProduct>(s: Seq<T>, p: T) -> Seq<T>
    decreases s.len(),
{
    if s.len() == 0 || in_time(s.last(), p) {
        s.push(p)
    } else {
        placed(s.drop_last(), p).push(s.last())
    }
}

/// The products by time; those of the same time and path keep their order.
pub open spec fn by_time<T: IdentifiedProduct>(s: Seq<T>) -> Seq<T>
    decreases s.len(),
{
    if s.len() == 0 {
        s
    } else {
        placed(by_time(s.drop_last()), s.last())
    }
}

/// The products stand in order.
pub open spec fn in_order<T: IdentifiedProduct>(s: Seq<T>) -> bool {
    forall|i: int, j: int| #![trigger s[i], s[j]] 0 <= i < j < s.len() ==> in_time(s[i], s[j])
}

/// The time and the path are those of the product.
pub open spec fn is_at<T: IdentifiedProduct>(datetime: i64, path: Seq<char>) -> spec_fn(T) -> bool {
    |p: T| p.id().datetime == datetime && p.id().path@ == path
}

proof fn lemma_in_time<T: IdentifiedProduct>(a: T, b: T, c: T)
    ensures
        in_time(a, b) || in_time(b, a),
        in_time(a, a),
        in_time(a, b) && in_time(b, c) ==> in_time(a, c),
{
    lemma_text_leq_total(a.id().path@, b.id().path@);
    lemma_text_leq_total(a.id().path@, a.id().path@);
    if text_leq(a.id().path@, b.id().path@) && text_leq(b.id().path@, c.id().path@) {
        lemma_text_leq_transitive(a.id().path@, b.id().path@, c.id().path@);
    }
}

proof fn lemma_placed<T: IdentifiedProduct>(s: Seq<T>, p: T, datetime: i64, path: Seq<char>)
    requires
        in_order(s),
    ensures
        in_order(placed(s, p)),
        placed(s, p).len() == s.len() + 1,
        forall|x: T| #[trigger] placed(s, p).contains(x) ==> s.contains(x) || x == p,
        placed(s, p).filter(is_at(datetime, path)) == s.push(p).filter(is_at(datetime, path)),
    decreases s.len(),
{
    let f = is_at::<T>(datetime, path);
    let after = placed(s, p);
    if s.len() == 0 || in_time(s.last(), p) {
        assert forall|i: int, j: int|
            #![trigger after[i], after[j]]
            0 <= i < j < after.len() implies in_time(after[i], after[j]) by {
            if j == s.len() && i < s.len() - 1 {
                assert(in_time(s[i], s[s.len() - 1]));
                lemma_in_time(s[i], s.last(), p);
            }
        }
        assert forall|x: T| #[trigger] after.contains(x) implies s.contains(x) || x == p by {
            lemma_push_contains(s, p, x);
        }
    } else {
        let rest = s.drop_last();
        let last = s.last();
        assert(in_order(rest)) by {
            assert forall|i: int, j: int|
                #![trigger rest[i], rest[j]]
                0 <= i < j < rest.len() implies in_time(rest[i], rest[j]) by {
                assert(rest[i] == s[i] && rest[j] == s[j]);
            }
        }
        lemma_placed(rest, p, datetime, path);
        let inner = placed(rest, p);
        lemma_in_time(p, last, last);
        assert forall|i: int, j: int|
            #![trigger after[i], after[j]]
            0 <= i < j < after.len() implies in_time(after[i], after[j]) by {
            if j == inner.len() {
                assert(inner.contains(inner[i]));
                if inner[i] != p {
                    assert(rest.contains(inner[i]));
                    let k = choose|k: int| 0 <= k < rest.len() && rest[k] == inner[i];
                    assert(in_time(s[k], s[s.len() - 1]));
                }
            } else {
                assert(in_time(inner[i], inner[j]));
            }
        }
        assert forall|x: T| #[trigger] after.contains(x) implies s.contains(x) || x == p by {
            lemma_push_contains(inner, last, x);
            assert(s[s.len() - 1] == last);
            if inner.contains(x) && x != p {
                let k = choose|k: int| 0 <= k < rest.len() && rest[k] == x;
                assert(s[k] == x);
            }
        }
        assert(!(f(p) && f(last))) by {
            lemma_in_time(last, last, last);
            if f(p) && f(last) {
                assert(in_time(last, p) == in_time(last, last));
            }
        }
        assert(rest.push(last) =~= s);
        lemma_filter_push(inner, last, f);
        lemma_filter_push(rest, p, f);
        lemma_filter_push(rest, last, f);
        lemma_filter_push(s, p, f);
    }
}

proof fn lemma_filter_push<A>(s: Seq<A>, a: A, f: spec_fn(A) -> bool)
    ensures
        s.push(a).filter(f) == if f(a) {
            s.filter(f).push(a)
        } else {
            s.filter(f)
        },
{
    reveal(Seq::filter);
    assert(s.push(a).drop_last() =~= s);
}

/// Ordering by time keeps every product, puts them in order, and leaves those of
/// the same time and path in the order in which they came.
pub proof fn lemma_by_time<T: IdentifiedProduct>(s: Seq<T>, datetime: i64, path: Seq<char>)
    ensures
        in_order(by_time(s)),
        by_time(s).len() == s.len(),
        by_time(s).filter(is_at(datetime, path)) == s.filter(is_at(datetime, path)),
    decreases s.len(),
{
    if s.len() > 0 {
        reveal(Seq::filter);
        let before = s.drop_last();
        lemma_by_time(before, datetime, path);
        let sorted = by_time(before);
        lemma_placed(sorted, s.last(), datetime, path);
        assert(sorted.push(s.last()).drop_last() =~= sorted);
        assert(before.push(s.last()) =~= s);
    }
}

proof fn lemma_placed_at<T: IdentifiedProduct>(s: Seq<T>, p: T, i: int)
    requires
        0 <= i <= s.len(),
        i > 0 ==> in_time(s[i - 1], p),
        forall|k: int| i <= k < s.len() ==> !in_time(#[trigger] s[k], p),
    ensures
        placed(s, p) == s.insert(i, p),
    decreases s.len(),
{
    if i == s.len() {
        assert(s.insert(i, p) =~= s.push(p));
        if s.len() > 0 {
            assert(s[i - 1] == s.last());
        }
    } else {
        assert(!in_time(s[s.len() - 1], p));
        let rest = s.drop_last();
        assert forall|k: int| i <= k < rest.len() implies !in_time(#[trigger] rest[k], p) by {
            assert(rest[k] == s[k]);
        }
        lemma_placed_at(rest, p, i);
        assert(rest.insert(i, p).push(s.last()) =~= s.insert(i, p));
    }
}

fn earlier<T: IdentifiedProduct>(a: &T, b: &T) -> (r: bool)
    ensures
        r == in_time(*a, *b),
{
    let left = a.product_id();
    let right = b.product_id();
    left.datetime < right.datetime || (left.datetime == right.datetime && text_at_most(
        left.path.as_str(),
        right.path.as_str(),
    ))
}

/// Orders products by valid time, and by path where that is the same.
pub fn sort_by_time<T: IdentifiedProduct>(products: Vec<T>) -> (sorted: Vec<T>)
    ensures
        sorted@ == by_time(products@),
{
    let mut sorted: Vec<T> = Vec::new();
    let ghost given = products@;
    proof {
        assert(given.take(0) =~= Seq::empty());
        assert(sorted@ =~= by_time(given.take(0)));
    }
    for product in it: products
        invariant
            it.seq() == given,
            sorted@ == by_time(given.take(it.index() as int)),
    {
        let ghost n = it.index() as int;
        let count: usize = sorted.len();
        let mut i: usize = count;
        while i > 0 && !earlier(&sorted[i - 1], &product)
            invariant
                i <= count,
                count == sorted@.len(),
                forall|k: int| i <= k < sorted@.len() ==> !in_time(#[trigger] sorted@[k], product),
            decreases i,
        {
            i = i - 1;
        }
        proof {
            lemma_placed_at(sorted@, product, i as int);
            assert(given.take(n + 1).drop_last() =~= given.take(n));
            assert(given.take(n + 1).last() == product);
        }
        sorted.insert(i, product);
    }
    assert(given.take(given.len() as int) =~= given);
    sorted
}

/// The product that is selected: the one that is asked for, where the input has
/// it, and otherwise the only one.
pub open spec fn selection<T: IdentifiedProduct>(
    products: Seq<T>,
    requested: Option<Seq<char>>,
) -> Option<Seq<char>> {
    match requested {
        Some(wanted) => if selectors(products).contains(wanted) {
            Some(wanted)
        } else {
            None
        },
        None => if products.len() > 0 && (forall|i: int|
            0 <= i < products.len() ==> #[trigger] products[i].id().selector()
                == products[0].id().selector()) {
            Some(products[0].id().selector())
        } else {
            None
        },
    }
}

/// A list of one is the selection.
proof fn lemma_single<T: IdentifiedProduct>(list: Seq<Seq<char>>, products: Seq<T>)
    requires
        lists(list, selectors(products)),
        products.len() > 0,
    ensures
        list.len() == 1 <==> selection(products, None) is Some,
        list.len() == 1 ==> selection(products, None) == Some(list[0]),
{
    let all = selectors(products);
    assert(all[0] == products[0].id().selector());
    assert(all.contains(all[0]));
    if list.len() == 1 {
        assert forall|i: int| 0 <= i < products.len() implies #[trigger] products[i].id().selector()
            == list[0] by {
            assert(all[i] == products[i].id().selector());
            assert(all.contains(all[i]));
            assert(list.contains(all[i]));
        }
    }
    if selection(products, None) is Some {
        assert(list.contains(all[0]));
        if list.len() > 1 {
            assert(list[0] != list[1]);
            assert(list.contains(list[0]) && list.contains(list[1]));
            let i = choose|i: int| 0 <= i < all.len() && all[i] == list[0];
            let j = choose|j: int| 0 <= j < all.len() && all[j] == list[1];
            assert(all[i] == products[i].id().selector());
            assert(all[j] == products[j].id().selector());
        }
    }
}

/// Everything that is asked of the selection.
pub struct Wishes {
    pub requested: Option<Seq<char>>,
    pub layer_count: Option<usize>,
    pub skip_analysis: bool,
    pub min_lead_time: Option<i64>,
}

/// The products that are left before they are counted.
pub open spec fn candidates<T: IdentifiedProduct>(
    products: Seq<T>,
    selected: Seq<char>,
    wishes: Wishes,
) -> Seq<T> {
    without_analyses(
        ahead(of_product(products, selected), wishes.min_lead_time),
        wishes.skip_analysis,
    )
}

/// The products that come out of the selection: in order of time, and no more of
/// them than layers are wanted.
pub open spec fn selected_products<T: IdentifiedProduct>(
    products: Seq<T>,
    selected: Seq<char>,
    wishes: Wishes,
) -> Seq<T> {
    let sorted = by_time(candidates(products, selected, wishes));
    match wishes.layer_count {
        Some(count) if count < sorted.len() => sorted.take(count as int),
        _ => sorted,
    }
}

/// What stands in the way of a selection.
pub enum SelectionFault {
    NoProducts,
    NotPresent,
    Several,
    LeadTime,
    OnlyAnalyses,
}

pub open spec fn selection_fault<T: IdentifiedProduct>(products: Seq<T>, wishes: Wishes) -> Option<
    SelectionFault,
> {
    if products.len() == 0 {
        Some(SelectionFault::NoProducts)
    } else {
        match selection(products, wishes.requested) {
            None => if wishes.requested is Some {
                Some(SelectionFault::NotPresent)
            } else {
                Some(SelectionFault::Several)
            },
            Some(selected) => {
                let far = ahead(of_product(products, selected), wishes.min_lead_time);
                let left = candidates(products, selected, wishes);
                if wishes.min_lead_time is Some && far.len() == 0 {
                    Some(SelectionFault::LeadTime)
                } else if wishes.skip_analysis && left.len() == 0 {
                    Some(SelectionFault::OnlyAnalyses)
                } else {
                    None
                }
            },
        }
    }
}

/// What a fault looks like to the caller.
pub open spec fn reports_selection<T: IdentifiedProduct>(
    error: SelectionError,
    fault: SelectionFault,
    products: Seq<T>,
    wishes: Wishes,
) -> bool {
    let selected = selection(products, wishes.requested);
    match (error, fault) {
        (SelectionError::NoProducts, SelectionFault::NoProducts) => true,
        (SelectionError::NotPresent { requested, available }, SelectionFault::NotPresent) => {
            &&& wishes.requested == Some(requested@)
            &&& lists(texts(available@), selectors(products))
        },
        (SelectionError::Several { available }, SelectionFault::Several) => lists(
            texts(available@),
            selectors(products),
        ),
        (SelectionError::LeadTime { minutes, product }, SelectionFault::LeadTime) => {
            &&& wishes.min_lead_time == Some(minutes)
            &&& selected == Some(product@)
        },
        (SelectionError::OnlyAnalyses { product }, SelectionFault::OnlyAnalyses) => selected
            == Some(product@),
        _ => false,
    }
}

fn keep_product<T: IdentifiedProduct>(products: Vec<T>, selected: &String) -> (kept: Vec<T>)
    ensures
        kept@ == of_product(products@, selected@),
{
    let mut kept: Vec<T> = Vec::new();
    let ghost given = products@;
    proof {
        reveal(Seq::filter);
        assert(given.take(0) =~= Seq::empty());
    }
    for product in it: products
        invariant
            it.seq() == given,
            kept@ == given.take(it.index() as int).filter(is_of(selected@)),
    {
        let ghost n = it.index() as int;
        proof {
            reveal(Seq::filter);
            assert(given.take(n + 1).drop_last() =~= given.take(n));
            assert(given.take(n + 1).last() == product);
        }
        if product.product_id().product_selector() == *selected {
            kept.push(product);
        }
    }
    assert(given.take(given.len() as int) =~= given);
    kept
}

fn keep_ahead<T: IdentifiedProduct>(products: Vec<T>, minutes: i64) -> (kept: Vec<T>)
    ensures
        kept@ == ahead(products@, Some(minutes)),
{
    let mut kept: Vec<T> = Vec::new();
    let ghost given = products@;
    proof {
        reveal(Seq::filter);
        assert(given.take(0) =~= Seq::empty());
    }
    for product in it: products
        invariant
            it.seq() == given,
            kept@ == given.take(it.index() as int).filter(is_ahead(minutes as int)),
    {
        let ghost n = it.index() as int;
        proof {
            reveal(Seq::filter);
            assert(given.take(n + 1).drop_last() =~= given.take(n));
            assert(given.take(n + 1).last() == product);
        }
        if lead_time(product.product_id()) >= minutes as i128 {
            kept.push(product);
        }
    }
    assert(given.take(given.len() as int) =~= given);
    kept
}

fn drop_analyses<T: IdentifiedProduct>(products: Vec<T>) -> (kept: Vec<T>)
    ensures
        kept@ == without_analyses(products@, true),
{
    let mut kept: Vec<T> = Vec::new();
    let ghost given = products@;
    proof {
        reveal(Seq::filter);
        assert(given.take(0) =~= Seq::empty());
    }
    for product in it: products
        invariant
            it.seq() == given,
            kept@ == given.take(it.index() as int).filter(is_no_analysis()),
    {
        let ghost n = it.index() as int;
        proof {
            reveal(Seq::filter);
            assert(given.take(n + 1).drop_last() =~= given.take(n));
            assert(given.take(n + 1).last() == product);
        }
        if product.product_id().generating_process != GeneratingProcessType::Analysis {
            kept.push(product);
        }
    }
    assert(given.take(given.len() as int) =~= given);
    kept
}

/// Selects the products to convert, in the order of their layers.
///
/// The first nowcast step is valid at the reference time itself, so a lead time
/// floor is what separates "now" from the actual forecasts. Nowcast inputs lead
/// with the observed field, whose valid time is before the reference time.
/// Dropping it ahead of the layer count keeps the numbering aligned with the
/// forecast steps.
pub fn select_products<T: IdentifiedProduct>(
    products: Vec<T>,
    requested: Option<&str>,
    layer_count: Option<usize>,
    skip_analysis: bool,
    min_lead_time: Option<i64>,
) -> (outcome: Result<Vec<T>, SelectionError>)
    ensures
        ({
            let wishes = Wishes {
                requested: match requested {
                    Some(text) => Some(text@),
                    None => None,
                },
                layer_count,
                skip_analysis,
                min_lead_time,
            };
            match (outcome, selection_fault(products@, wishes)) {
                (Ok(selected), None) => selected@ == selected_products(
                    products@,
                    selection(products@, wishes.requested)->0,
                    wishes,
                ),
                (Err(error), Some(fault)) => reports_selection(error, fault, products@, wishes),
                _ => false,
            }
        }),
{
    let ghost wishes = Wishes {
        requested: match requested {
            Some(text) => Some(text@),
            None => None,
        },
        layer_count,
        skip_analysis,
        min_lead_time,
    };
    let ghost given = products@;
    if products.len() == 0 {
        return Err(SelectionError::NoProducts);
    }
    let available = available_products(&products);
    proof {
        lemma_single(texts(available@), given);
        assert(available@.len() > 0 ==> texts(available@)[0] == available@[0]@);
        if let Some(text) = requested {
            assert(texts(available@).contains(text@) <==> selectors(given).contains(text@));
        }
    }
    let selected = match resolve_product_selector(&available, requested) {
        Ok(selected) => selected,
        Err(error) => {
            return Err(error);
        },
    };
    assert(selection(given, wishes.requested) == Some(selected@));
    let mut kept = keep_product(products, &selected);
    if let Some(minutes) = min_lead_time {
        kept = keep_ahead(kept, minutes);
        if kept.len() == 0 {
            return Err(SelectionError::LeadTime { minutes, product: selected });
        }
    }
    if skip_analysis {
        kept = drop_analyses(kept);
        if kept.len() == 0 {
            return Err(SelectionError::OnlyAnalyses { product: selected });
        }
    }
    let ghost left = kept@;
    let mut sorted = sort_by_time(kept);
    proof {
        lemma_by_time(left, 0, Seq::empty());
    }
    if let Some(count) = layer_count {
        if count < sorted.len() {
            sorted.truncate(count);
            proof {
                assert(sorted@ =~= by_time(left).take(count as int));
            }
        }
    }
    Ok(sorted)
}

/// What is left before products are counted: of the given products, in their order,
/// those of the selected kind that are no analyses, where these are skipped, and that
/// are valid far enough after their reference time. A floor of some minutes keeps a
/// product if and only if it is valid so many minutes later at least; a floor of zero
/// or less leaves up to a minute more, since minutes are counted whole.
pub proof fn lemma_candidates<T: IdentifiedProduct>(
    products: Seq<T>,
    selected: Seq<char>,
    wishes: Wishes,
)
    ensures
        candidates(products, selected, wishes) == products.filter(
            |p: T|
                {
                    &&& p.id().selector() == selected
                    &&& wishes.min_lead_time matches Some(minutes) ==> if minutes > 0 {
                        p.id().datetime - p.id().reference_datetime >= 60 * minutes
                    } else {
                        p.id().datetime - p.id().reference_datetime > 60 * minutes - 60
                    }
                    &&& wishes.skip_analysis ==> p.id().generating_process
                        != GeneratingProcessType::Analysis
                },
        ),
    decreases products.len(),
{
    reveal(Seq::filter);
    if products.len() > 0 {
        let before = products.drop_last();
        let last = products.last();
        lemma_candidates(before, selected, wishes);
        let own = of_product(before, selected);
        let far = ahead(own, wishes.min_lead_time);
        assert(own.push(last).drop_last() =~= own);
        assert(far.push(last).drop_last() =~= far);
        if let Some(minutes) = wishes.min_lead_time {
            lemma_lead_time(last.id(), minutes as int);
        }
    }
}

/// A product is so many minutes ahead, if and only if it is valid that long after its
/// reference time.
proof fn lemma_lead_time(id: GpvProductIdentifier, minutes: int)
    ensures
        lead_minutes(id) >= minutes <==> if minutes > 0 {
            id.datetime - id.reference_datetime >= 60 * minutes
        } else {
            id.datetime - id.reference_datetime > 60 * minutes - 60
        },
{
}

/// Of two products of one kind with the same reference time, the later one is far
/// enough ahead whenever the earlier one is.
pub proof fn lemma_later_is_ahead<T: IdentifiedProduct>(
    products: Seq<T>,
    selected: Seq<char>,
    wishes: Wishes,
    a: T,
    b: T,
)
    requires
        candidates(products, selected, wishes).contains(a),
        products.contains(b),
        b.id().selector() == a.id().selector(),
        b.id().reference_datetime == a.id().reference_datetime,
        b.id().datetime >= a.id().datetime,
        b.id().generating_process != GeneratingProcessType::Analysis || !wishes.skip_analysis,
    ensures
        candidates(products, selected, wishes).contains(b),
{
    lemma_candidates(products, selected, wishes);
    let f = |p: T|
        {
            &&& p.id().selector() == selected
            &&& wishes.min_lead_time matches Some(minutes) ==> if minutes > 0 {
                p.id().datetime - p.id().reference_datetime >= 60 * minutes
            } else {
                p.id().datetime - p.id().reference_datetime > 60 * minutes - 60
            }
            &&& wishes.skip_analysis ==> p.id().generating_process
                != GeneratingProcessType::Analysis
        };
    assert(candidates(products, selected, wishes) == products.filter(f));
    lemma_filter_contains(products, f, a);
    lemma_filter_contains(products, f, b);
}

/// What comes out of the selection: as many of the products that are left as layers are
/// wanted, or all of them where they are fewer, by valid time and then by path. None of
/// those that are cut off stands before one that is not.
pub proof fn lemma_selected<T: IdentifiedProduct>(
    products: Seq<T>,
    selected: Seq<char>,
    wishes: Wishes,
)
    ensures
        ({
            let result = selected_products(products, selected, wishes);
            let left = candidates(products, selected, wishes);
            &&& result.len() == match wishes.layer_count {
                Some(count) => if count < left.len() {
                    count as nat
                } else {
                    left.len()
                },
                None => left.len(),
            }
            &&& forall|i: int, j: int|
                #![trigger result[i], result[j]]
                0 <= i < j < result.len() ==> {
                    ||| result[i].id().datetime < result[j].id().datetime
                    ||| result[i].id().datetime == result[j].id().datetime && text_leq(
                        result[i].id().path@,
                        result[j].id().path@,
                    )
                }
            &&& forall|i: int| 0 <= i < result.len() ==> left.contains(#[trigger] result[i])
            &&& forall|i: int, p: T|
                #![trigger result[i], left.contains(p)]
                left.contains(p) && !result.contains(p) && 0 <= i < result.len()
                    ==> result[i].id().datetime <= p.id().datetime
            &&& (wishes.layer_count is None || wishes.layer_count->0 >= left.len())
                ==> result.to_multiset() == left.to_multiset()
        }),
{
    let left = candidates(products, selected, wishes);
    let sorted = by_time(left);
    let result = selected_products(products, selected, wishes);
    lemma_by_time(left, 0, Seq::empty());
    lemma_by_time_multiset(left);
    assert forall|i: int| 0 <= i < result.len() implies left.contains(#[trigger] result[i]) by {
        assert(sorted[i] == result[i]);
        sorted.to_multiset_ensures();
        left.to_multiset_ensures();
        assert(sorted.contains(sorted[i]));
        assert(sorted.to_multiset().count(sorted[i]) > 0);
    }
    assert forall|i: int, p: T|
        #![trigger result[i], left.contains(p)]
        left.contains(p) && !result.contains(p) && 0 <= i < result.len() implies result[i].id().datetime
        <= p.id().datetime by {
        sorted.to_multiset_ensures();
        left.to_multiset_ensures();
        assert(left.to_multiset().count(p) > 0);
        assert(sorted.contains(p));
        let j = choose|j: int| 0 <= j < sorted.len() && sorted[j] == p;
        if j < result.len() {
            assert(result[j] == p);
        }
        assert(sorted[i] == result[i]);
        assert(in_time(sorted[i], sorted[j]));
    }
}

proof fn lemma_by_time_multiset<T: IdentifiedProduct>(s: Seq<T>)
    ensures
        by_time(s).to_multiset() == s.to_multiset(),
    decreases s.len(),
{
    if s.len() > 0 {
        let before = s.drop_last();
        lemma_by_time_multiset(before);
        lemma_placed_multiset(by_time(before), s.last());
        assert(before.push(s.last()) =~= s);
        before.to_multiset_ensures();
    }
}

proof fn lemma_placed_multiset<T: IdentifiedProduct>(s: Seq<T>, p: T)
    ensures
        placed(s, p).to_multiset() == s.to_multiset().insert(p),
    decreases s.len(),
{
    s.to_multiset_ensures();
    if s.len() == 0 || in_time(s.last(), p) {
    } else {
        let before = s.drop_last();
        lemma_placed_multiset(before, p);
        placed(before, p).to_multiset_ensures();
        before.to_multiset_ensures();
        assert(before.push(s.last()) =~= s);
        assert(s.to_multiset().insert(p) =~= before.to_multiset().insert(p).insert(s.last()));
    }
}

/// Which product is selected: the one that is asked for, as long as the input has one
/// of that kind, and without a request the kind of all the products, as long as there
/// is only one.
pub proof fn lemma_selection<T: IdentifiedProduct>(
    products: Seq<T>,
    requested: Option<Seq<char>>,
    kind: Seq<char>,
)
    ensures
        requested matches Some(wanted) ==> (selection(products, requested) == Some(kind) <==> kind
            == wanted && exists|i: int|
            0 <= i < products.len() && (#[trigger] products[i]).id().selector() == wanted),
        requested is None ==> (selection(products, requested) == Some(kind) <==> products.len() > 0
            && forall|i: int|
            0 <= i < products.len() ==> (#[trigger] products[i]).id().selector() == kind),
{
    let all = selectors(products);
    if let Some(wanted) = requested {
        if all.contains(wanted) {
            let i = choose|i: int| 0 <= i < all.len() && all[i] == wanted;
            assert(products[i].id().selector() == wanted);
        }
        if exists|i: int| 0 <= i < products.len() && (#[trigger] products[i]).id().selector()
            == wanted {
            let i = choose|i: int|
                0 <= i < products.len() && (#[trigger] products[i]).id().selector() == wanted;
            assert(all[i] == wanted);
        }
    } else if products.len() > 0 {
        assert(products[0].id().selector() == products[0].id().selector());
    }
}

/// When a selection fails: without products; where the requested kind is not there;
/// where there are several kinds and none is requested; and where a floor, or skipping
/// analyses, leaves nothing.
pub proof fn lemma_selection_fails<T: IdentifiedProduct>(products: Seq<T>, wishes: Wishes)
    ensures
        ({
            let fault = selection_fault(products, wishes);
            let kind = selection(products, wishes.requested);
            let all = Wishes { skip_analysis: false, ..wishes };
            &&& fault == Some(SelectionFault::NoProducts) <==> products.len() == 0
            &&& fault == Some(SelectionFault::NotPresent) <==> products.len() > 0 && kind is None
                && wishes.requested is Some
            &&& fault == Some(SelectionFault::Several) <==> products.len() > 0 && kind is None
                && wishes.requested is None
            &&& fault == Some(SelectionFault::LeadTime) <==> products.len() > 0 && kind is Some
                && wishes.min_lead_time is Some && candidates(products, kind->0, all).len() == 0
            &&& fault == Some(SelectionFault::OnlyAnalyses) ==> wishes.skip_analysis && candidates(
                products,
                kind->0,
                wishes,
            ).len() == 0
            &&& fault is None && (wishes.skip_analysis || wishes.min_lead_time is Some)
                ==> candidates(products, kind->0, wishes).len() > 0
        }),
{
}

impl SelectionError {
    pub open spec fn text(self) -> Seq<char> {
        match self {
            SelectionError::NoProducts => "input contains no convertible value products"@,
            SelectionError::NotPresent { requested, available } => "product `"@ + requested@
                + "` is not present in the input; available choices:\n"@ + choices_text(
                texts(available@),
            ),
            SelectionError::Several { available } =>
                "input contains multiple products; select one explicitly:\n"@ + choices_text(
                texts(available@),
            ),
            SelectionError::LeadTime { minutes, product } => "--min-lead-time "@ + signed_decimal(
                minutes as int,
            ) + " removed every product of "@ + product@,
            SelectionError::OnlyAnalyses { product } =>
                "--skip-analysis removed every product; "@ + product@ + " contains only analyses"@,
        }
    }

    pub fn message(&self) -> (message: String)
        ensures
            message@ == self.text(),
    {
        match self {
            SelectionError::NoProducts => String::from_str(
                "input contains no convertible value products",
            ),
            SelectionError::NotPresent { requested, available } => {
                let mut message = String::from_str("product `");
                message.append(requested.as_str());
                message.append("` is not present in the input; available choices:\n");
                message.append(product_choices(available).as_str());
                message
            },
            SelectionError::Several { available } => {
                let mut message = String::from_str(
                    "input contains multiple products; select one explicitly:\n",
                );
                message.append(product_choices(available).as_str());
                message
            },
            SelectionError::LeadTime { minutes, product } => {
                let mut message = String::from_str("--min-lead-time ");
                message.append(signed_decimal_text(*minutes).as_str());
                message.append(" removed every product of ");
                message.append(product.as_str());
                message
            },
            SelectionError::OnlyAnalyses { product } => {
                let mut message = String::from_str("--skip-analysis removed every product; ");
                message.append(product.as_str());
                message.append(" contains only analyses");
                message
            },
        }
    }
}

/// How it is reported that nothing can be chosen: by the name that was asked for and all
/// the names that there are, each once and in ascending order, or by the product that was
/// chosen and the lead time that none of it reaches.
pub proof fn lemma_selection_report<T: IdentifiedProduct>(
    error: SelectionError,
    fault: SelectionFault,
    products: Seq<T>,
    wishes: Wishes,
)
    requires
        reports_selection(error, fault, products, wishes),
    ensures
        match fault {
            SelectionFault::NoProducts => error is NoProducts,
            SelectionFault::NotPresent => error is NotPresent && wishes.requested == Some(
                error->requested@,
            ) && names_all(texts(error->NotPresent_available@), products),
            SelectionFault::Several => error is Several && names_all(
                texts(error->Several_available@),
                products,
            ),
            SelectionFault::LeadTime => error is LeadTime && wishes.min_lead_time == Some(
                error->minutes,
            ) && selection(products, wishes.requested) == Some(error->LeadTime_product@),
            SelectionFault::OnlyAnalyses => error is OnlyAnalyses && selection(
                products,
                wishes.requested,
            ) == Some(error->OnlyAnalyses_product@),
        },
{
    let all = selectors(products);
    assert forall|list: Seq<Seq<char>>| #[trigger] lists(list, all) implies names_all(
        list,
        products,
    ) by {
        assert forall|i: int| 0 <= i < products.len() implies list.contains(
            (#[trigger] products[i]).id().selector(),
        ) by {
            assert(all[i] == products[i].id().selector());
            assert(all.contains(all[i]));
        }
        assert forall|x: Seq<char>| #[trigger] list.contains(x) implies is_named(products, x) by {
            assert(all.contains(x));
            let i = choose|i: int| 0 <= i < all.len() && all[i] == x;
            assert(products[i].id().selector() == x);
        }
    }
}

/// The list names every product, nothing else, and nothing twice, in ascending order.
pub open spec fn names_all<T: IdentifiedProduct>(list: Seq<Seq<char>>, products: Seq<T>) -> bool {
    &&& forall|i: int|
        0 <= i < products.len() ==> list.contains((#[trigger] products[i]).id().selector())
    &&& forall|x: Seq<char>| #[trigger] list.contains(x) ==> is_named(products, x)
    &&& forall|k: int, l: int|
        #![trigger list[k], list[l]]
        0 <= k < l < list.len() ==> list[k] != list[l] && text_leq(list[k], list[l])
}

/// Some product has the name.
pub open spec fn is_named<T: IdentifiedProduct>(products: Seq<T>, name: Seq<char>) -> bool {
    exists|i: int| 0 <= i < products.len() && (#[trigger] products[i]).id().selector() == name
}

} // verus!
